//! What holds of the key columns and the pruning predicate of an upsert.
use vstd::prelude::*;

use crate::columnar::all_null;
use crate::model::{lemma_selected, selected, text_le, BatchModel, Cell, ColumnKind};
use crate::planner::{
    bounds, cell_le, column_predicate, datum_of, datums, in_list, is_greatest, is_least,
    key_field_ids, key_predicate, non_key_bits, optimal_predicate, prunable, is_key_column,
    resolution_failure, typed_cell, typed_cells, typed_keys, KeyColumn,
};
use crate::predicate::{cell_at_least, cell_at_most, cell_is, NamedRow, PredicateModel};
use crate::schema::{column_count, lemma_positions, Schema};

verus! {

/// Every text comes before itself.
pub proof fn lemma_text_le_reflexive(a: Seq<char>)
    ensures
        text_le(a, a),
    decreases a.len(),
{
    if a.len() > 0 {
        lemma_text_le_reflexive(a.drop_first());
    }
}

/// Of two texts one comes before the other.
pub proof fn lemma_text_le_total(a: Seq<char>, b: Seq<char>)
    ensures
        text_le(a, b) || text_le(b, a),
    decreases a.len(),
{
    if a.len() > 0 && b.len() > 0 && a[0] == b[0] {
        lemma_text_le_total(a.drop_first(), b.drop_first());
    }
}

/// What comes before a text comes before those after it.
pub proof fn lemma_text_le_transitive(a: Seq<char>, b: Seq<char>, c: Seq<char>)
    requires
        text_le(a, b),
        text_le(b, c),
    ensures
        text_le(a, c),
    decreases a.len(),
{
    if a.len() > 0 && b.len() > 0 && c.len() > 0 && a[0] == b[0] && b[0] == c[0] {
        lemma_text_le_transitive(a.drop_first(), b.drop_first(), c.drop_first());
    }
}

/// The cell is no integer beyond the range of a signed 64-bit literal.
pub open spec fn has_literal(cell: Option<Cell>) -> bool {
    cell matches Some(Cell::Int(v)) ==> v <= i64::MAX
}

/// The predicate of the column stands for the value at row `s` where it has one: the value is not
/// null, and literals stand for the integers from which the predicate is made.
pub open spec fn pruned_by(name: Seq<char>, kind: ColumnKind, cells: Seq<Option<Cell>>, s: int) -> bool {
    column_predicate(name, kind, cells) is Some ==> {
        &&& cells[s] is Some
        &&& if in_list(name, kind, cells) is Some {
            has_literal(cells[s])
        } else {
            forall|i: int| 0 <= i < cells.len() ==> has_literal(#[trigger] cells[i])
        }
    }
}

proof fn lemma_cell_le(kind: ColumnKind, a: Cell, b: Cell, c: Cell)
    requires
        typed_cell(kind, a),
        typed_cell(kind, b),
        typed_cell(kind, c),
    ensures
        cell_le(a, a),
        cell_le(a, b) || cell_le(b, a),
        cell_le(a, b) && cell_le(b, c) ==> cell_le(a, c),
{
    match (a, b, c) {
        (Cell::Text(x), Cell::Text(y), Cell::Text(z)) => {
            lemma_text_le_reflexive(x);
            lemma_text_le_total(x, y);
            if text_le(x, y) && text_le(y, z) {
                lemma_text_le_transitive(x, y, z);
            }
        },
        _ => {},
    }
}

/// A column that is not all null has a least and a greatest value, which its bounds are made of.
pub proof fn bounds_are_values(kind: ColumnKind, cells: Seq<Option<Cell>>)
    requires
        typed_cells(kind, cells),
        !all_null(cells),
    ensures
        exists|c: Cell| is_least(cells, c),
        exists|c: Cell| is_greatest(cells, c),
    decreases cells.len(),
{
    let rest = cells.drop_last();
    assert(typed_cells(kind, rest)) by {
        assert forall|i: int| 0 <= i < rest.len() implies (#[trigger] rest[i] matches Some(c) ==> typed_cell(
            kind,
            c,
        )) by {
            assert(rest[i] == cells[i]);
        }
    }
    let n = cells.len() - 1;
    if all_null(rest) {
        let i = choose|i: int| 0 <= i < cells.len() && cells[i] is Some;
        assert(i == n) by {
            if i < n {
                assert(rest[i] is Some);
            }
        }
        let c = cells[n]->0;
        lemma_cell_le(kind, c, c, c);
        assert forall|j: int| 0 <= j < cells.len() && #[trigger] cells[j] is Some implies j == n by {
            if j < n {
                assert(rest[j] is Some);
            }
        }
        assert(cells[n] == Some(c));
        assert(is_least(cells, c));
        assert(is_greatest(cells, c));
    } else {
        bounds_are_values(kind, rest);
        let low = choose|c: Cell| is_least(rest, c);
        let high = choose|c: Cell| is_greatest(rest, c);
        let i = choose|i: int| 0 <= i < rest.len() && rest[i] == Some(low);
        let j = choose|j: int| 0 <= j < rest.len() && rest[j] == Some(high);
        assert(cells[i] == Some(low));
        assert(cells[j] == Some(high));
        match cells[n] {
            None => {
                assert(is_least(cells, low)) by {
                    assert forall|k: int| 0 <= k < cells.len() implies (#[trigger] cells[k] matches Some(c)
                        ==> cell_le(low, c)) by {
                        if k < n {
                            assert(rest[k] == cells[k]);
                        }
                    }
                }
                assert(is_greatest(cells, high)) by {
                    assert forall|k: int| 0 <= k < cells.len() implies (#[trigger] cells[k] matches Some(c)
                        ==> cell_le(c, high)) by {
                        if k < n {
                            assert(rest[k] == cells[k]);
                        }
                    }
                }
            },
            Some(last) => {
                lemma_cell_le(kind, last, low, low);
                lemma_cell_le(kind, last, high, high);
                let least = if cell_le(low, last) {
                    low
                } else {
                    last
                };
                let greatest = if cell_le(last, high) {
                    high
                } else {
                    last
                };
                assert(cells[n] == Some(last));
                assert(is_least(cells, least)) by {
                    assert forall|k: int| 0 <= k < cells.len() implies (#[trigger] cells[k] matches Some(c)
                        ==> cell_le(least, c)) by {
                        if k < n && cells[k] is Some {
                            assert(rest[k] == cells[k]);
                            lemma_cell_le(kind, last, low, cells[k]->0);
                        }
                    }
                }
                assert(is_greatest(cells, greatest)) by {
                    assert forall|k: int| 0 <= k < cells.len() implies (#[trigger] cells[k] matches Some(c)
                        ==> cell_le(c, greatest)) by {
                        if k < n && cells[k] is Some {
                            assert(rest[k] == cells[k]);
                            lemma_cell_le(kind, cells[k]->0, high, last);
                        }
                    }
                }
            },
        }
    }
}

/// The literals of a column include that of each value.
proof fn lemma_datums_include(kind: ColumnKind, cells: Seq<Option<Cell>>, i: int)
    requires
        0 <= i < cells.len(),
        cells[i] is Some,
    ensures
        datums(kind, cells).to_set().contains(datum_of(kind, cells[i]->0)),
    decreases cells.len(),
{
    let d = datum_of(kind, cells[i]->0);
    let all = datums(kind, cells);
    if i == cells.len() - 1 {
        assert(all[all.len() - 1] == d);
    } else {
        lemma_datums_include(kind, cells.drop_last(), i);
        let shorter = datums(kind, cells.drop_last());
        let j = choose|j: int| 0 <= j < shorter.len() && shorter[j] == d;
        assert(all[j] == d);
    }
}

/// The predicate of a column admits the rows that have one of its values there.
proof fn lemma_column_predicate_admits(
    name: Seq<char>,
    kind: ColumnKind,
    cells: Seq<Option<Cell>>,
    i: int,
    row: NamedRow,
)
    requires
        prunable(kind) ==> typed_cells(kind, cells),
        0 <= i < cells.len(),
        pruned_by(name, kind, cells, i),
        row.contains_key(name),
        row[name] == cells[i],
    ensures
        column_predicate(name, kind, cells) matches Some(p) ==> p.admits(row),
{
    let cell = cells[i]->0;
    if column_predicate(name, kind, cells) is Some {
        assert(typed_cell(kind, cells[i]->0));
    }
    if in_list(name, kind, cells) is Some {
        lemma_datums_include(kind, cells, i);
        assert(cell_is(cell, datum_of(kind, cell)));
    } else if bounds(name, kind, cells) is Some {
        bounds_are_values(kind, cells);
        let least = choose|c: Cell| is_least(cells, c);
        let greatest = choose|c: Cell| is_greatest(cells, c);
        let l = choose|l: int| 0 <= l < cells.len() && cells[l] == Some(least);
        let g = choose|g: int| 0 <= g < cells.len() && cells[g] == Some(greatest);
        assert(cell_le(least, cell));
        assert(cell_le(cell, greatest));
        assert(typed_cell(kind, cells[l]->0));
        assert(typed_cell(kind, cells[g]->0));
        assert(has_literal(cells[l]));
        assert(has_literal(cells[g]));
        assert(cell_at_least(cell, datum_of(kind, least)));
        assert(cell_at_most(cell, datum_of(kind, greatest)));
        let p = bounds(name, kind, cells)->0;
        assert(p.admits(row)) by {
            reveal_with_fuel(PredicateModel::verdict, 3);
        }
    }
}

/// The row has the key of source row `s`, under the names of the key columns.
pub open spec fn has_key(source: BatchModel, key_columns: Seq<KeyColumn>, s: int, row: NamedRow) -> bool {
    forall|k: int|
        0 <= k < key_columns.len() ==> {
            &&& row.contains_key((#[trigger] key_columns[k]).name@)
            &&& row[key_columns[k].name@] == source.columns[key_columns[k].schema_index as int].cells[s]
        }
}

/// The predicate of each key column stands for the key of source row `s`.
pub open spec fn pruned_keys(source: BatchModel, key_columns: Seq<KeyColumn>, s: int) -> bool {
    forall|k: int|
        0 <= k < key_columns.len() ==> {
            let column = source.columns[(#[trigger] key_columns[k]).schema_index as int];
            pruned_by(key_columns[k].name@, column.data_type.kind, column.cells, s)
        }
}

/// The predicates stand for keys without nulls whose integers are in the signed 64-bit range.
pub proof fn keys_without_nulls_are_pruned(source: BatchModel, key_columns: Seq<KeyColumn>, s: int)
    requires
        forall|k: int, i: int|
            0 <= k < key_columns.len() && 0 <= i < source.rows ==> {
                let cell = #[trigger] source.columns[key_columns[k].schema_index as int].cells[i];
                cell is Some && has_literal(cell)
            },
        forall|k: int|
            0 <= k < key_columns.len() ==> source.columns[(
            #[trigger] key_columns[k]).schema_index as int].cells.len() == source.rows,
        0 <= s < source.rows,
    ensures
        pruned_keys(source, key_columns, s),
{
}

proof fn lemma_key_predicate_admits(
    source: BatchModel,
    key_columns: Seq<KeyColumn>,
    s: int,
    row: NamedRow,
)
    requires
        forall|k: int|
            0 <= k < key_columns.len() ==> source.columns[(
            #[trigger] key_columns[k]).schema_index as int].cells.len() == source.rows,
        0 <= s < source.rows,
        typed_keys(source, key_columns),
        pruned_keys(source, key_columns, s),
        has_key(source, key_columns, s, row),
    ensures
        key_predicate(source, key_columns) matches Some(p) ==> p.admits(row),
    decreases key_columns.len(),
{
    if key_columns.len() > 0 {
        let rest = key_columns.drop_last();
        assert forall|k: int| 0 <= k < rest.len() implies #[trigger] rest[k] == key_columns[k] by {}
        lemma_key_predicate_admits(source, rest, s, row);
        let last = key_columns[key_columns.len() - 1];
        let column = source.columns[last.schema_index as int];
        lemma_column_predicate_admits(
            last.name@,
            column.data_type.kind,
            column.cells,
            s,
            row,
        );
    }
}

/// The pruning predicate admits every row that has the key of a source row, so that no file with a
/// match is left out of the scan. A key value that is null is admitted only where its column has no
/// predicate, and an integer beyond the signed 64-bit range has no literal.
pub proof fn pruning_keeps_matches(
    source: BatchModel,
    key_columns: Seq<KeyColumn>,
    s: int,
    row: NamedRow,
)
    requires
        source.wf(),
        forall|k: int|
            0 <= k < key_columns.len() ==> (#[trigger] key_columns[k]).schema_index < source.columns.len(),
        0 <= s < source.rows,
        typed_keys(source, key_columns),
        pruned_keys(source, key_columns, s),
        has_key(source, key_columns, s, row),
    ensures
        optimal_predicate(source, key_columns) matches Some(p) ==> p.admits(row),
{
    assert forall|k: int| 0 <= k < key_columns.len() implies source.columns[(
    #[trigger] key_columns[k]).schema_index as int].cells.len() == source.rows by {
        assert(source.columns[key_columns[k].schema_index as int].cells.len() == source.rows);
    }
    lemma_key_predicate_admits(source, key_columns, s, row);
}

/// Each column of the table is a key column or is compared for changes, and none is both.
pub proof fn columns_are_keys_or_compared(
    schema: Schema,
    names: Seq<String>,
    key_columns: Seq<KeyColumn>,
    c: int,
)
    requires
        resolution_failure(schema, names) is None,
        key_columns.len() == key_field_ids(schema, names).len(),
        forall|i: int|
            0 <= i < key_columns.len() ==> is_key_column(
                #[trigger] key_columns[i],
                schema.fields@,
                key_field_ids(schema, names)[i],
            ),
    ensures
        key_columns.len() > 0,
        forall|k: int|
            0 <= k < key_columns.len() ==> (#[trigger] key_columns[k]).schema_index < column_count(
                schema.fields@,
            ),
        0 <= c < column_count(schema.fields@) ==> (selected(non_key_bits(schema, key_columns)).contains(c)
            <==> !exists|k: int|
            0 <= k < key_columns.len() && (#[trigger] key_columns[k]).schema_index == c),
{
    assert forall|k: int| 0 <= k < key_columns.len() implies (#[trigger] key_columns[k]).schema_index
        < column_count(schema.fields@) by {
        lemma_positions(schema.fields@, key_columns[k].name@, key_field_ids(schema, names)[k]);
    }
    let bits = non_key_bits(schema, key_columns);
    lemma_selected(bits);
    if 0 <= c < column_count(schema.fields@) {
        if selected(bits).contains(c) {
            let j = choose|j: int| 0 <= j < selected(bits).len() && selected(bits)[j] == c;
            assert(bits[selected(bits)[j]]);
        }
        if bits[c] {
            assert(selected(bits).contains(c));
        }
    }
}

}
