//! Hash matching of target rows against source rows, and columnar change detection.
use arrow_array::BooleanArray;
use arrow_row::RowConverter;
use arrow_schema::ArrowError;
use vstd::prelude::*;

use crate::columnar::{
    batch_column, column_cells, column_kind, column_type, columns_differ, converter_types,
    copy_batch, error_text, is_mask, mask_and, mask_and_kleene, mask_cells, mask_from, mask_not,
    mask_or, neq_supported, no_rows, null_mask, rows_keys, rows_len, rows_types, take_fits,
    take_rows, Batch, Column,
};
use crate::error::{Error, ErrorKind, Result};
use crate::keys::{
    encode_keys, encoded, find_key, index_keys, key_converter, KeyIndex,
};
use crate::model::{
    all_keyable, in_columns, last_index_of, lemma_last_index_of, selected, text_bytes, BatchModel,
    Cell, ColumnKind, ColumnModel, Row,
};
use crate::text::join2;

verus! {

/// What the rows of one target batch have in common with the source.
#[derive(Debug)]
pub struct MatchResult {
    /// Mask over the target batch: `true` where the row has no matching source key. Such a row is
    /// kept as it is by a rewrite, and ignored by merge-on-read.
    pub unmatched_target_mask: BooleanArray,
    /// For each matched pair the row of the source, parallel to `matched_target_indices`.
    pub matched_source_indices: Vec<u32>,
    /// For each matched pair the row of the target, parallel to `matched_source_indices`.
    pub matched_target_indices: Vec<u32>,
    /// For each matched pair whether any non-key column differs between the two rows, changes
    /// from and to null included.
    pub changed_mask: BooleanArray,
}

/// The source row that target row `t` matches: the last one with the same key.
pub open spec fn match_of(source_keys: Seq<Row>, target_keys: Seq<Row>, t: int) -> Option<int> {
    if 0 <= t < target_keys.len() {
        last_index_of(source_keys, target_keys[t])
    } else {
        None
    }
}

/// Which of the first `rows` target rows match a source row.
pub open spec fn matched_bits(source_keys: Seq<Row>, target_keys: Seq<Row>, rows: nat) -> Seq<bool> {
    Seq::new(rows, |t: int| match_of(source_keys, target_keys, t) is Some)
}

/// Which of the first `rows` target rows match no source row.
pub open spec fn unmatched_bits(source_keys: Seq<Row>, target_keys: Seq<Row>, rows: nat) -> Seq<bool> {
    Seq::new(rows, |t: int| match_of(source_keys, target_keys, t) is None)
}

/// The matched pairs in the order of the target rows: the target rows.
pub open spec fn pair_targets(source_keys: Seq<Row>, target_keys: Seq<Row>, rows: nat) -> Seq<int> {
    selected(matched_bits(source_keys, target_keys, rows))
}

/// The matched pairs in the order of the target rows: the source rows.
pub open spec fn pair_sources(source_keys: Seq<Row>, target_keys: Seq<Row>, rows: nat) -> Seq<int> {
    pair_targets(source_keys, target_keys, rows).map_values(
        |t: int| match_of(source_keys, target_keys, t)->0,
    )
}

/// One of the first `rows` target rows matches source row `s`.
pub open spec fn hits(source_keys: Seq<Row>, target_keys: Seq<Row>, rows: nat, s: int) -> bool {
    exists|t: int| 0 <= t < rows && #[trigger] match_of(source_keys, target_keys, t) == Some(s)
}

/// The matched flags of the source rows once the target rows are matched too.
pub open spec fn flags_after(
    flags: Seq<bool>,
    source_keys: Seq<Row>,
    target_keys: Seq<Row>,
    rows: nat,
) -> Seq<bool> {
    Seq::new(flags.len(), |s: int| flags[s] || hits(source_keys, target_keys, rows, s))
}

/// Source row `s` and target row `t` differ in a non-key column.
pub open spec fn row_changed(
    source: BatchModel,
    target: BatchModel,
    non_keys: Seq<usize>,
    s: int,
    t: int,
) -> bool {
    source.project(non_keys, s) != target.project(non_keys, t)
}

/// For each matched pair whether its rows differ in a non-key column.
pub open spec fn changed_bits(
    source: BatchModel,
    target: BatchModel,
    non_keys: Seq<usize>,
    sources: Seq<int>,
    targets: Seq<int>,
) -> Seq<bool> {
    Seq::new(targets.len(), |j: int| row_changed(source, target, non_keys, sources[j], targets[j]))
}

/// Row numbers as mathematical integers.
pub open spec fn as_ints(indices: Seq<u32>) -> Seq<int> {
    indices.map_values(|i: u32| i as int)
}

/// How the comparison of one column fails, if it does: the start of the error's message.
pub open spec fn column_failure(
    source: ColumnModel,
    s: Seq<u32>,
    target: ColumnModel,
    t: Seq<u32>,
) -> Option<Seq<char>> {
    let source_flat = source.data_type.kind.is_flat();
    let target_flat = target.data_type.kind.is_flat();
    if source_flat && !take_fits(source.data_type, source.cells, s) || target_flat && !take_fits(
        target.data_type,
        target.cells,
        t,
    ) {
        Some("Arrow take error: "@)
    } else if !source_flat || !target_flat || !neq_supported(source.data_type, target.data_type) {
        Some("Column neq comparison error: "@)
    } else {
        None
    }
}

/// How change detection fails, if it does: the failure of the first column that cannot be
/// compared.
pub open spec fn detection_failure(
    source: BatchModel,
    s: Seq<u32>,
    target: BatchModel,
    t: Seq<u32>,
    non_keys: Seq<usize>,
) -> Option<Seq<char>>
    decreases non_keys.len(),
{
    if non_keys.len() == 0 {
        None
    } else {
        match detection_failure(source, s, target, t, non_keys.drop_last()) {
            Some(prefix) => Some(prefix),
            None => column_failure(
                source.columns[non_keys.last() as int],
                s,
                target.columns[non_keys.last() as int],
                t,
            ),
        }
    }
}

/// The column can surely be compared: its values are flat and of one type on both sides, and the
/// rows can be gathered, as they can be for integers, dates, dictionaries and short enough texts.
pub open spec fn surely_comparable(
    source: ColumnModel,
    s: Seq<u32>,
    target: ColumnModel,
    t: Seq<u32>,
) -> bool {
    &&& source.data_type == target.data_type
    &&& {
        ||| source.data_type.kind.is_signed()
        ||| source.data_type.kind.is_unsigned()
        ||| source.data_type.kind is Dictionary
        ||| {
            &&& source.data_type.kind is Utf8
            &&& text_bytes(source.cells, s) <= i32::MAX
            &&& text_bytes(target.cells, t) <= i32::MAX
        }
        ||| {
            &&& source.data_type.kind.is_flat()
            &&& take_fits(source.data_type, source.cells, s)
            &&& take_fits(target.data_type, target.cells, t)
        }
    }
}

fn arrow_failure(prefix: &str, error: &ArrowError) -> (failure: Error)
    ensures
        failure.reports(prefix@),
{
    let detail = error_text(error);
    let message = join2(prefix, detail.as_str());
    Error::new(ErrorKind::Unexpected, message)
}

/// The rows at `indices` of a column.
fn take_column(column: &Column, indices: &Vec<u32>) -> (taken: Result<Column>)
    requires
        column_type(*column).kind.is_flat(),
        forall|j: int| 0 <= j < indices@.len() ==> #[trigger] indices@[j] < column_cells(*column).len(),
    ensures
        column_type(*column).kind.is_signed() || column_type(*column).kind.is_unsigned() ==> taken is Ok,
        column_type(*column).kind is Dictionary ==> taken is Ok,
        column_type(*column).kind is Utf8 && text_bytes(column_cells(*column), indices@) <= i32::MAX
            ==> taken is Ok,
        match taken {
            Ok(c) => {
                &&& take_fits(column_type(*column), column_cells(*column), indices@)
                &&& column_type(c) == column_type(*column)
                &&& column_cells(c) == Seq::new(
                    indices@.len(),
                    |j: int| column_cells(*column)[indices@[j] as int],
                )
            },
            Err(e) => !take_fits(column_type(*column), column_cells(*column), indices@) && e.reports(
                "Arrow take error: "@,
            ),
        },
{
    match take_rows(column, indices) {
        Ok(taken) => Ok(taken),
        Err(e) => Err(arrow_failure("Arrow take error: ", &e)),
    }
}

/// A mask over the column: `true` where the value is null.
fn is_null_mask(column: &Column) -> (mask: BooleanArray)
    ensures
        is_mask(mask, column_cells(*column).map_values(|c: Option<Cell>| c is None)),
{
    null_mask(column).unwrap()
}

/// The negation of a mask without nulls.
fn not_mask(mask: &BooleanArray, Ghost(bits): Ghost<Seq<bool>>) -> (negated: BooleanArray)
    requires
        is_mask(*mask, bits),
    ensures
        is_mask(negated, bits.map_values(|b: bool| !b)),
{
    let negated = mask_not(mask).unwrap();
    assert(mask_cells(negated) =~= bits.map_values(|b: bool| !b).map_values(|b: bool| Some(b)));
    negated
}

/// The conjunction of two masks without nulls.
fn both(
    left: &BooleanArray,
    right: &BooleanArray,
    Ghost(a): Ghost<Seq<bool>>,
    Ghost(b): Ghost<Seq<bool>>,
) -> (mask: Result<BooleanArray>)
    requires
        is_mask(*left, a),
        is_mask(*right, b),
        a.len() == b.len(),
    ensures
        mask matches Ok(m) && is_mask(m, Seq::new(a.len(), |i: int| a[i] && b[i])),
{
    match mask_and(left, right) {
        Ok(mask) => {
            assert(mask_cells(mask) =~= Seq::new(a.len(), |i: int| a[i] && b[i]).map_values(
                |x: bool| Some(x),
            ));
            Ok(mask)
        },
        Err(e) => Err(arrow_failure("Boolean AND error: ", &e)),
    }
}

/// The disjunction of two masks without nulls.
fn either(
    left: &BooleanArray,
    right: &BooleanArray,
    Ghost(a): Ghost<Seq<bool>>,
    Ghost(b): Ghost<Seq<bool>>,
) -> (mask: Result<BooleanArray>)
    requires
        is_mask(*left, a),
        is_mask(*right, b),
        a.len() == b.len(),
    ensures
        mask matches Ok(m) && is_mask(m, Seq::new(a.len(), |i: int| a[i] || b[i])),
{
    match mask_or(left, right) {
        Ok(mask) => {
            assert(mask_cells(mask) =~= Seq::new(a.len(), |i: int| a[i] || b[i]).map_values(
                |x: bool| Some(x),
            ));
            Ok(mask)
        },
        Err(e) => Err(arrow_failure("Boolean OR error: ", &e)),
    }
}

/// For each position whether the two columns differ, a null against a value included.
///
/// A value changed where its null status changed, or where both values are there and are not
/// equal.
fn column_changed(src: &Column, tgt: &Column) -> (changed: Result<BooleanArray>)
    requires
        column_type(*src).kind.is_flat(),
        column_type(*tgt).kind.is_flat(),
        column_cells(*src).len() == column_cells(*tgt).len(),
    ensures
        column_type(*src) == column_type(*tgt) ==> changed is Ok,
        match changed {
            Ok(m) => neq_supported(column_type(*src), column_type(*tgt)) && is_mask(
                m,
                Seq::new(
                    column_cells(*src).len(),
                    |i: int| column_cells(*src)[i] != column_cells(*tgt)[i],
                ),
            ),
            Err(e) => !neq_supported(column_type(*src), column_type(*tgt)) && e.reports(
                "Column neq comparison error: "@,
            ),
        },
{
    let ghost a = column_cells(*src);
    let ghost b = column_cells(*tgt);
    let ghost a_null = a.map_values(|c: Option<Cell>| c is None);
    let ghost b_null = b.map_values(|c: Option<Cell>| c is None);
    let ghost a_set = a_null.map_values(|x: bool| !x);
    let ghost b_set = b_null.map_values(|x: bool| !x);

    let src_null = is_null_mask(src);
    let tgt_null = is_null_mask(tgt);
    let src_set = not_mask(&src_null, Ghost(a_null));
    let tgt_set = not_mask(&tgt_null, Ghost(b_null));

    // The null status changed: null on one side only.
    let left = both(&src_null, &tgt_set, Ghost(a_null), Ghost(b_set))?;
    let right = both(&tgt_null, &src_set, Ghost(b_null), Ghost(a_set))?;
    let ghost left_bits = Seq::new(a.len(), |i: int| a_null[i] && b_set[i]);
    let ghost right_bits = Seq::new(a.len(), |i: int| b_null[i] && a_set[i]);
    let null_changed = either(&left, &right, Ghost(left_bits), Ghost(right_bits))?;
    let ghost null_bits = Seq::new(a.len(), |i: int| left_bits[i] || right_bits[i]);

    // The value changed: where either side is null the comparison yields null, and Kleene's
    // conjunction with false turns that null into false.
    let both_set = both(&src_set, &tgt_set, Ghost(a_set), Ghost(b_set))?;
    let differ = match columns_differ(src, tgt) {
        Ok(mask) => mask,
        Err(e) => return Err(arrow_failure("Column neq comparison error: ", &e)),
    };
    let ghost value_bits = Seq::new(a.len(), |i: int| a_set[i] && b_set[i] && a[i] != b[i]);
    let value_changed = match mask_and_kleene(&differ, &both_set) {
        Ok(mask) => mask,
        Err(e) => return Err(arrow_failure("Boolean AND error: ", &e)),
    };
    assert(mask_cells(value_changed) =~= value_bits.map_values(|x: bool| Some(x)));

    let changed = either(&null_changed, &value_changed, Ghost(null_bits), Ghost(value_bits))?;
    assert(Seq::new(a.len(), |i: int| null_bits[i] || value_bits[i]) =~= Seq::new(
        a.len(),
        |i: int| a[i] != b[i],
    ));
    Ok(changed)
}

/// Why two columns that are not both flat cannot be compared.
fn comparison_refusal(
    source: &Column,
    source_kind: ColumnKind,
    target: &Column,
    target_kind: ColumnKind,
) -> (failure: Error)
    requires
        source_kind == column_type(*source).kind,
        target_kind == column_type(*target).kind,
        !source_kind.is_flat() || !target_kind.is_flat(),
    ensures
        failure.reports("Column neq comparison error: "@),
{
    let answered = match (source_kind, target_kind) {
        (ColumnKind::RunEnd, _) => false,
        (_, ColumnKind::RunEnd) => false,
        (ColumnKind::TwiceEncoded, ColumnKind::TwiceEncoded) => false,
        _ => true,
    };
    if answered {
        if let Err(e) = columns_differ(&no_rows(source), &no_rows(target)) {
            return arrow_failure("Column neq comparison error: ", &e);
        }
    }
    let message = join2("Column neq comparison error: ", "the values are encoded more than once or by runs");
    Error::new(ErrorKind::Unexpected, message)
}

/// The rows of two batches differ in the first `k + 1` non-key columns where they differ in the
/// first `k` or in the column after them.
proof fn lemma_row_changed_step(
    source: BatchModel,
    target: BatchModel,
    non_keys: Seq<usize>,
    k: int,
    s: int,
    t: int,
)
    requires
        0 <= k < non_keys.len(),
    ensures
        row_changed(source, target, non_keys.take(k + 1), s, t) == (row_changed(
            source,
            target,
            non_keys.take(k),
            s,
            t,
        ) || source.columns[non_keys[k] as int].cells[s] != target.columns[non_keys[k] as int].cells[t]),
{
    let a = source.project(non_keys.take(k), s);
    let b = target.project(non_keys.take(k), t);
    let x = source.columns[non_keys[k] as int].cells[s];
    let y = target.columns[non_keys[k] as int].cells[t];
    assert(source.project(non_keys.take(k + 1), s) =~= a.push(x));
    assert(target.project(non_keys.take(k + 1), t) =~= b.push(y));
    if a.push(x) == b.push(y) {
        assert(a =~= a.push(x).drop_last());
        assert(b =~= b.push(y).drop_last());
        assert(x == a.push(x).last());
        assert(y == b.push(y).last());
    }
}

/// For each matched pair whether any non-key column differs.
fn detect_changes(
    source: &Batch,
    target: &Batch,
    non_key_column_indices: &[usize],
    source_indices: &Vec<u32>,
    target_indices: &Vec<u32>,
) -> (changed: Result<BooleanArray>)
    requires
        source@.wf(),
        target@.wf(),
        non_key_column_indices@.len() > 0,
        in_columns(non_key_column_indices@, source@),
        in_columns(non_key_column_indices@, target@),
        source_indices@.len() == target_indices@.len(),
        forall|j: int| 0 <= j < source_indices@.len() ==> #[trigger] source_indices@[j] < source@.rows,
        forall|j: int| 0 <= j < target_indices@.len() ==> #[trigger] target_indices@[j] < target@.rows,
    ensures
        (forall|k: int|
            0 <= k < non_key_column_indices@.len() ==> surely_comparable(
                source@.columns[#[trigger] non_key_column_indices@[k] as int],
                source_indices@,
                target@.columns[non_key_column_indices@[k] as int],
                target_indices@,
            )) ==> changed is Ok,
        match changed {
            Ok(m) => detection_failure(
                source@,
                source_indices@,
                target@,
                target_indices@,
                non_key_column_indices@,
            ) is None && is_mask(
                m,
                changed_bits(
                    source@,
                    target@,
                    non_key_column_indices@,
                    as_ints(source_indices@),
                    as_ints(target_indices@),
                ),
            ),
            Err(e) => detection_failure(
                source@,
                source_indices@,
                target@,
                target_indices@,
                non_key_column_indices@,
            ) matches Some(prefix) && e.reports(prefix),
        },
{
    let ghost non_keys = non_key_column_indices@;
    let ghost s = source_indices@;
    let ghost t = target_indices@;
    let mut any_changed: Option<BooleanArray> = None;
    let mut k: usize = 0;
    while k < non_key_column_indices.len()
        invariant
            source@.wf(),
            target@.wf(),
            non_keys == non_key_column_indices@,
            s == source_indices@,
            t == target_indices@,
            in_columns(non_keys, source@),
            in_columns(non_keys, target@),
            s.len() == t.len(),
            forall|j: int| 0 <= j < s.len() ==> #[trigger] s[j] < source@.rows,
            forall|j: int| 0 <= j < t.len() ==> #[trigger] t[j] < target@.rows,
            k <= non_keys.len(),
            k > 0 <==> any_changed is Some,
            detection_failure(source@, s, target@, t, non_keys.take(k as int)) is None,
            any_changed matches Some(m) ==> is_mask(
                m,
                changed_bits(source@, target@, non_keys.take(k as int), as_ints(s), as_ints(t)),
            ),
        decreases non_keys.len() - k,
    {
        let ghost c = non_keys[k as int] as int;
        proof {
            assert(non_keys.take(k + 1).drop_last() =~= non_keys.take(k as int));
            lemma_first_failure(source@, s, target@, t, non_keys, k + 1);
        }
        let source_column = batch_column(source, non_key_column_indices[k]);
        let target_column = batch_column(target, non_key_column_indices[k]);
        let source_kind = column_kind(&source_column);
        let target_kind = column_kind(&target_column);
        if !source_kind.is_flat() || !target_kind.is_flat() {
            if source_kind.is_flat() {
                take_column(&source_column, source_indices)?;
            }
            if target_kind.is_flat() {
                take_column(&target_column, target_indices)?;
            }
            return Err(comparison_refusal(&source_column, source_kind, &target_column, target_kind));
        }
        let src = take_column(&source_column, source_indices)?;
        let tgt = take_column(&target_column, target_indices)?;
        let column_mask = column_changed(&src, &tgt)?;
        let ghost column_bits = Seq::new(
            s.len(),
            |j: int| source@.columns[c].cells[s[j] as int] != target@.columns[c].cells[t[j] as int],
        );
        let ghost before = changed_bits(
            source@,
            target@,
            non_keys.take(k as int),
            as_ints(s),
            as_ints(t),
        );
        let ghost after = changed_bits(source@, target@, non_keys.take(k + 1), as_ints(s), as_ints(t));
        proof {
            assert(Seq::new(column_cells(src).len(), |i: int| column_cells(src)[i] != column_cells(tgt)[i])
                =~= column_bits);
            assert forall|j: int| 0 <= j < s.len() implies after[j] == (before[j] || column_bits[j]) by {
                lemma_row_changed_step(source@, target@, non_keys, k as int, s[j] as int, t[j] as int);
            }
        }
        any_changed = Some(
            match any_changed {
                None => {
                    proof {
                        assert forall|j: int| 0 <= j < s.len() implies !before[j] by {
                            assert(source@.project(non_keys.take(0), s[j] as int) =~= target@.project(
                                non_keys.take(0),
                                t[j] as int,
                            ));
                        }
                        assert(after =~= column_bits);
                    }
                    column_mask
                },
                Some(mask) => {
                    let joined = either(&mask, &column_mask, Ghost(before), Ghost(column_bits))?;
                    assert(after =~= Seq::new(before.len(), |j: int| before[j] || column_bits[j]));
                    joined
                },
            },
        );
        k += 1;
    }
    assert(non_keys.take(k as int) =~= non_keys);
    Ok(any_changed.unwrap())
}

/// A failure among the first `k` columns is the failure of all.
proof fn lemma_first_failure(
    source: BatchModel,
    s: Seq<u32>,
    target: BatchModel,
    t: Seq<u32>,
    non_keys: Seq<usize>,
    k: int,
)
    requires
        0 <= k <= non_keys.len(),
    ensures
        detection_failure(source, s, target, t, non_keys.take(k)) matches Some(prefix)
            ==> detection_failure(source, s, target, t, non_keys) == Some(prefix),
    decreases non_keys.len(),
{
    if k == non_keys.len() {
        assert(non_keys.take(k) =~= non_keys);
    } else {
        lemma_first_failure(source, s, target, t, non_keys.drop_last(), k);
        assert(non_keys.drop_last().take(k) =~= non_keys.take(k));
    }
}

impl MatchResult {
    /// The result is the match of target rows with keys `target_keys` against source rows with
    /// keys `source_keys`, compared in the columns `non_keys`.
    pub open spec fn describes(
        &self,
        source: BatchModel,
        source_keys: Seq<Row>,
        target: BatchModel,
        target_keys: Seq<Row>,
        non_keys: Seq<usize>,
    ) -> bool {
        &&& is_mask(
            self.unmatched_target_mask,
            unmatched_bits(source_keys, target_keys, target.rows),
        )
        &&& as_ints(self.matched_target_indices@) == pair_targets(source_keys, target_keys, target.rows)
        &&& as_ints(self.matched_source_indices@) == pair_sources(source_keys, target_keys, target.rows)
        &&& is_mask(
            self.changed_mask,
            changed_bits(
                source,
                target,
                non_keys,
                pair_sources(source_keys, target_keys, target.rows),
                pair_targets(source_keys, target_keys, target.rows),
            ),
        )
    }
}

/// Row numbers in the form in which rows are taken.
pub open spec fn as_indices(rows: Seq<int>) -> Seq<u32> {
    rows.map_values(|r: int| r as u32)
}

/// How comparing the matched pairs fails, if it does. Nothing is compared where no row matches.
pub open spec fn comparison_failure(
    source: BatchModel,
    source_keys: Seq<Row>,
    target: BatchModel,
    target_keys: Seq<Row>,
    non_keys: Seq<usize>,
) -> Option<Seq<char>> {
    let targets = pair_targets(source_keys, target_keys, target.rows);
    let sources = pair_sources(source_keys, target_keys, target.rows);
    if targets.len() == 0 {
        None
    } else {
        detection_failure(source, as_indices(sources), target, as_indices(targets), non_keys)
    }
}

/// The non-key columns of the matched pairs can surely be compared.
pub open spec fn comparison_is_sure(
    source: BatchModel,
    source_keys: Seq<Row>,
    target: BatchModel,
    target_keys: Seq<Row>,
    non_keys: Seq<usize>,
) -> bool {
    forall|k: int|
        0 <= k < non_keys.len() ==> surely_comparable(
            source.columns[#[trigger] non_keys[k] as int],
            as_indices(pair_sources(source_keys, target_keys, target.rows)),
            target.columns[non_keys[k] as int],
            as_indices(pair_targets(source_keys, target_keys, target.rows)),
        )
}

/// Matches target batches against the rows of one source batch.
///
/// Built once from the source, then used for all target files and batches. It keeps track of the
/// source rows that were matched, so that the others can be written as inserts.
pub struct UpsertMatcher {
    row_converter: RowConverter,
    index: KeyIndex,
    source_matched: Vec<bool>,
    source: Batch,
    key_column_indices: Vec<usize>,
    non_key_column_indices: Vec<usize>,
}

impl UpsertMatcher {
    /// The source batch.
    pub closed spec fn source_model(&self) -> BatchModel {
        self.source@
    }

    /// The positions of the key columns.
    pub closed spec fn key_indices(&self) -> Seq<usize> {
        self.key_column_indices@
    }

    /// The positions of the columns that are compared for changes.
    pub closed spec fn non_key_indices(&self) -> Seq<usize> {
        self.non_key_column_indices@
    }

    /// For each source row whether a target row matched it.
    pub closed spec fn matched(&self) -> Seq<bool> {
        self.source_matched@
    }

    /// The keys of the source rows.
    pub open spec fn source_keys(&self) -> Seq<Row> {
        self.source_model().keys(self.key_indices())
    }

    /// The index holds the keys of the source, and there is one flag for each source row.
    pub closed spec fn wf(&self) -> bool {
        &&& self.source@.wf()
        &&& self.source@.rows <= 0x1_0000_0000
        &&& in_columns(self.key_column_indices@, self.source@)
        &&& in_columns(self.non_key_column_indices@, self.source@)
        &&& all_keyable(self.source@.types(self.key_column_indices@))
        &&& converter_types(self.row_converter) == self.source@.types(self.key_column_indices@)
        &&& self.index.wf()
        &&& self.index@ == encoded(
            self.source@.types(self.key_column_indices@),
            self.source@.keys(self.key_column_indices@),
        )
        &&& self.source_matched@.len() == self.source@.rows
    }

    /// The target batch has the columns that the matcher reads, key columns that are not nested,
    /// and no more rows than a 32-bit row number can tell apart.
    pub open spec fn fits(&self, target: BatchModel) -> bool {
        &&& in_columns(self.key_indices(), target)
        &&& in_columns(self.non_key_indices(), target)
        &&& all_keyable(target.types(self.key_indices()))
        &&& target.rows <= 0x1_0000_0000
    }

    /// Matching the target batch fails: its key columns have other types than those of the
    /// source, or a non-key column cannot be compared.
    pub open spec fn failure(&self, target: BatchModel) -> Option<Seq<char>> {
        if target.types(self.key_indices()) != self.source_model().types(self.key_indices()) {
            Some("RowConverter convert error: "@)
        } else {
            comparison_failure(
                self.source_model(),
                self.source_keys(),
                target,
                target.keys(self.key_indices()),
                self.non_key_indices(),
            )
        }
    }

    /// A matcher has one flag for each source row.
    pub proof fn lemma_one_flag_per_row(&self)
        requires
            self.wf(),
        ensures
            self.matched().len() == self.source_model().rows,
    {
    }

    /// Builds a matcher from the source batch.
    ///
    /// `key_column_indices` are the positions of the join key columns in the source, which are not
    /// nested, and `non_key_column_indices` those of the remaining columns.
    pub fn new(
        source: &Batch,
        key_column_indices: &[usize],
        non_key_column_indices: &[usize],
    ) -> (matcher: Result<Self>)
        requires
            in_columns(key_column_indices@, source@),
            in_columns(non_key_column_indices@, source@),
            all_keyable(source@.types(key_column_indices@)),
            source@.rows <= 0x1_0000_0000,
        ensures
            matcher matches Ok(m) && {
                &&& m.wf()
                &&& m.source_model() == source@
                &&& m.key_indices() == key_column_indices@
                &&& m.non_key_indices() == non_key_column_indices@
                &&& m.matched() == Seq::new(source@.rows, |s: int| false)
            },
    {
        let rows: usize = source.num_rows();
        let row_converter = key_converter(source, key_column_indices)?;
        let source_rows = encode_keys(&row_converter, source, key_column_indices)?;
        let index = index_keys(&source_rows);
        let mut source_matched: Vec<bool> = Vec::new();
        let mut i: usize = 0;
        while i < rows
            invariant
                i <= rows,
                source_matched@ == Seq::new(i as nat, |s: int| false),
            decreases rows - i,
        {
            source_matched.push(false);
            assert(source_matched@ =~= Seq::new((i + 1) as nat, |s: int| false));
            i += 1;
        }
        Ok(
            UpsertMatcher {
                row_converter,
                index,
                source_matched,
                source: copy_batch(source),
                key_column_indices: copy_indices(key_column_indices),
                non_key_column_indices: copy_indices(non_key_column_indices),
            },
        )
    }

    /// Matches a target batch against the source, and keeps track of the source rows that were
    /// matched. May be called for any number of target batches.
    pub fn match_batch(&mut self, target: &Batch) -> (result: Result<MatchResult>)
        requires
            old(self).wf(),
            old(self).fits(target@),
        ensures
            final(self).wf(),
            final(self).source_model() == old(self).source_model(),
            final(self).key_indices() == old(self).key_indices(),
            final(self).non_key_indices() == old(self).non_key_indices(),
            final(self).matched() == if target@.types(old(self).key_indices())
                == old(self).source_model().types(old(self).key_indices()) {
                flags_after(
                    old(self).matched(),
                    old(self).source_keys(),
                    target@.keys(old(self).key_indices()),
                    target@.rows,
                )
            } else {
                old(self).matched()
            },
            target@.types(old(self).key_indices()) == old(self).source_model().types(
                old(self).key_indices(),
            ) && comparison_is_sure(
                old(self).source_model(),
                old(self).source_keys(),
                target@,
                target@.keys(old(self).key_indices()),
                old(self).non_key_indices(),
            ) ==> result is Ok,
            match result {
                Ok(m) => {
                    &&& old(self).failure(target@) is None
                    &&& m.describes(
                        old(self).source_model(),
                        old(self).source_keys(),
                        target@,
                        target@.keys(old(self).key_indices()),
                        old(self).non_key_indices(),
                    )
                },
                Err(e) => old(self).failure(target@) matches Some(prefix) && e.reports(prefix),
            },
    {
        let n_target: usize = target.num_rows();
        let target_rows = encode_keys(&self.row_converter, target, self.key_column_indices.as_slice())?;
        let n_keys: usize = rows_len(&target_rows);
        let mut unmatched_target: Vec<bool> = Vec::new();
        let mut matched_source: Vec<u32> = Vec::new();
        let mut matched_target: Vec<u32> = Vec::new();
        let ghost before = *self;
        let ghost sk = self.source_keys();
        let ghost tk = rows_keys(target_rows);

        let mut i: usize = 0;
        while i < n_target
            invariant
                before.wf(),
                *self == (UpsertMatcher { source_matched: self.source_matched, ..before }),
                sk == before.source_keys(),
                tk == rows_keys(target_rows),
                n_keys == tk.len(),
                rows_types(target_rows) == converter_types(before.row_converter),
                n_target == target@.rows,
                target@.rows <= 0x1_0000_0000,
                i <= n_target,
                unmatched_target@ == unmatched_bits(sk, tk, i as nat),
                as_ints(matched_target@) == pair_targets(sk, tk, i as nat),
                as_ints(matched_source@) == pair_sources(sk, tk, i as nat),
                self.source_matched@ == flags_after(before.source_matched@, sk, tk, i as nat),
            decreases n_target - i,
        {
            let found = if i < n_keys {
                find_key(&self.index, &target_rows, i, Ghost(sk))
            } else {
                None
            };
            let ghost flags = self.source_matched@;
            proof {
                lemma_pairs_step(sk, tk, i as nat);
                lemma_flags_step(before.source_matched@, sk, tk, i as nat);
                if i < n_keys {
                    lemma_last_index_of(sk, tk[i as int]);
                }
            }
            match found {
                Some(row) => {
                    unmatched_target.push(false);
                    matched_source.push(row as u32);
                    matched_target.push(i as u32);
                    self.source_matched.set(row, true);
                },
                None => {
                    unmatched_target.push(true);
                },
            }
            assert(unmatched_target@ =~= unmatched_bits(sk, tk, (i + 1) as nat));
            assert(as_ints(matched_target@) =~= pair_targets(sk, tk, (i + 1) as nat));
            assert(as_ints(matched_source@) =~= pair_sources(sk, tk, (i + 1) as nat));
            assert(self.source_matched@ =~= flags_after(before.source_matched@, sk, tk, (i + 1) as nat));
            i += 1;
        }

        let n_matched: usize = matched_source.len();
        let ghost targets = pair_targets(sk, tk, target@.rows);
        let ghost sources = pair_sources(sk, tk, target@.rows);
        proof {
            lemma_pairs_in_bounds(sk, tk, target@.rows);
            assert(matched_source@ =~= as_indices(sources)) by {
                assert forall|j: int| 0 <= j < sources.len() implies matched_source@[j] == #[trigger] as_indices(
                    sources,
                )[j] by {
                    assert(as_ints(matched_source@)[j] == matched_source@[j] as int);
                }
            }
            assert(matched_target@ =~= as_indices(targets)) by {
                assert forall|j: int| 0 <= j < targets.len() implies matched_target@[j] == #[trigger] as_indices(
                    targets,
                )[j] by {
                    assert(as_ints(matched_target@)[j] == matched_target@[j] as int);
                }
            }
            assert forall|j: int| 0 <= j < matched_source@.len() implies #[trigger] matched_source@[j]
                < before.source@.rows by {
                assert(as_ints(matched_source@)[j] == matched_source@[j] as int);
            }
            assert forall|j: int| 0 <= j < matched_target@.len() implies #[trigger] matched_target@[j]
                < target@.rows by {
                assert(as_ints(matched_target@)[j] == matched_target@[j] as int);
            }
        }
        let changed_mask = if n_matched == 0 || self.non_key_column_indices.len() == 0 {
            let mut unchanged: Vec<bool> = Vec::new();
            let mut j: usize = 0;
            while j < n_matched
                invariant
                    j <= n_matched,
                    unchanged@ == Seq::new(j as nat, |p: int| false),
                decreases n_matched - j,
            {
                unchanged.push(false);
                assert(unchanged@ =~= Seq::new((j + 1) as nat, |p: int| false));
                j += 1;
            }
            proof {
                let non_keys = self.non_key_column_indices@;
                let bits = changed_bits(before.source@, target@, non_keys, sources, targets);
                assert(bits.len() == n_matched);
                assert forall|p: int| 0 <= p < bits.len() implies !bits[p] by {
                    assert(before.source@.project(non_keys, sources[p]) =~= target@.project(
                        non_keys,
                        targets[p],
                    ));
                }
                assert(unchanged@ =~= bits);
            }
            mask_from(unchanged)
        } else {
            detect_changes(
                &self.source,
                target,
                self.non_key_column_indices.as_slice(),
                &matched_source,
                &matched_target,
            )?
        };

        Ok(
            MatchResult {
                unmatched_target_mask: mask_from(unmatched_target),
                matched_source_indices: matched_source,
                matched_target_indices: matched_target,
                changed_mask,
            },
        )
    }

    /// A mask over the source batch: `true` where no target row ever matched the source row, which
    /// is to be written as an insert.
    pub fn unmatched_source_mask(&self) -> (mask: BooleanArray)
        ensures
            is_mask(mask, self.matched().map_values(|m: bool| !m)),
    {
        let mut bits: Vec<bool> = Vec::new();
        let mut i: usize = 0;
        while i < self.source_matched.len()
            invariant
                i <= self.source_matched@.len(),
                bits@ == self.source_matched@.map_values(|m: bool| !m).take(i as int),
            decreases self.source_matched@.len() - i,
        {
            bits.push(!self.source_matched[i]);
            assert(bits@ =~= self.source_matched@.map_values(|m: bool| !m).take(i + 1));
            i += 1;
        }
        assert(bits@ =~= self.source_matched@.map_values(|m: bool| !m));
        mask_from(bits)
    }

    /// The number of source rows.
    pub fn source_len(&self) -> (len: usize)
        ensures
            len == self.source_model().rows,
    {
        self.source.num_rows()
    }

    /// The source batch.
    pub fn source(&self) -> (source: &Batch)
        ensures
            source@ == self.source_model(),
    {
        &self.source
    }
}

fn copy_indices(indices: &[usize]) -> (copy: Vec<usize>)
    ensures
        copy@ == indices@,
{
    let mut copy: Vec<usize> = Vec::new();
    let mut i: usize = 0;
    while i < indices.len()
        invariant
            i <= indices@.len(),
            copy@ == indices@.take(i as int),
        decreases indices@.len() - i,
    {
        copy.push(indices[i]);
        assert(copy@ =~= indices@.take(i + 1));
        i += 1;
    }
    assert(copy@ =~= indices@);
    copy
}

/// One more target row adds its pair where it matches, and nothing else.
pub proof fn lemma_pairs_step(source_keys: Seq<Row>, target_keys: Seq<Row>, i: nat)
    ensures
        pair_targets(source_keys, target_keys, i + 1) == match match_of(
            source_keys,
            target_keys,
            i as int,
        ) {
            Some(s) => pair_targets(source_keys, target_keys, i).push(i as int),
            None => pair_targets(source_keys, target_keys, i),
        },
        pair_sources(source_keys, target_keys, i + 1) == match match_of(
            source_keys,
            target_keys,
            i as int,
        ) {
            Some(s) => pair_sources(source_keys, target_keys, i).push(s),
            None => pair_sources(source_keys, target_keys, i),
        },
{
    assert(matched_bits(source_keys, target_keys, i + 1).drop_last() =~= matched_bits(
        source_keys,
        target_keys,
        i,
    ));
    match match_of(source_keys, target_keys, i as int) {
        Some(s) => {
            assert(pair_sources(source_keys, target_keys, i + 1) =~= pair_sources(
                source_keys,
                target_keys,
                i,
            ).push(s));
        },
        None => {},
    }
}

/// One more target row flags the source row that it matches.
proof fn lemma_flags_step(flags: Seq<bool>, source_keys: Seq<Row>, target_keys: Seq<Row>, i: nat)
    ensures
        forall|s: int|
            0 <= s < flags.len() ==> #[trigger] flags_after(flags, source_keys, target_keys, i + 1)[s] == (
            flags_after(flags, source_keys, target_keys, i)[s] || match_of(
                source_keys,
                target_keys,
                i as int,
            ) == Some(s)),
{
    assert forall|s: int| 0 <= s < flags.len() implies #[trigger] flags_after(
        flags,
        source_keys,
        target_keys,
        i + 1,
    )[s] == (flags_after(flags, source_keys, target_keys, i)[s] || match_of(
        source_keys,
        target_keys,
        i as int,
    ) == Some(s)) by {
        if hits(source_keys, target_keys, i, s) {
            let t = choose|t: int| 0 <= t < i && #[trigger] match_of(source_keys, target_keys, t) == Some(s);
            assert(match_of(source_keys, target_keys, t) == Some(s));
            assert(hits(source_keys, target_keys, i + 1, s));
        }
        if match_of(source_keys, target_keys, i as int) == Some(s) {
            assert(hits(source_keys, target_keys, i + 1, s));
        }
        if hits(source_keys, target_keys, i + 1, s) {
            let t = choose|t: int|
                0 <= t < i + 1 && #[trigger] match_of(source_keys, target_keys, t) == Some(s);
            if t < i {
                assert(hits(source_keys, target_keys, i, s));
            }
        }
    }
}

/// The pairs name rows of the target and of the source.
pub proof fn lemma_pairs_in_bounds(source_keys: Seq<Row>, target_keys: Seq<Row>, rows: nat)
    ensures
        pair_sources(source_keys, target_keys, rows).len() == pair_targets(
            source_keys,
            target_keys,
            rows,
        ).len(),
        forall|j: int|
            0 <= j < pair_targets(source_keys, target_keys, rows).len() ==> 0 <= #[trigger] pair_targets(
                source_keys,
                target_keys,
                rows,
            )[j] < rows,
        forall|j: int|
            0 <= j < pair_sources(source_keys, target_keys, rows).len() ==> 0 <= #[trigger] pair_sources(
                source_keys,
                target_keys,
                rows,
            )[j] < source_keys.len(),
    decreases rows,
{
    if rows > 0 {
        let i = (rows - 1) as nat;
        lemma_pairs_in_bounds(source_keys, target_keys, i);
        lemma_pairs_step(source_keys, target_keys, i);
        if i < target_keys.len() {
            lemma_last_index_of(source_keys, target_keys[i as int]);
        }
    }
}

}
