//! What pruning predicates are built of, said over the values of the key columns.
use vstd::prelude::*;

use crate::binding_laws::{are_same, lemma_literals};
use crate::columnar::{all_null, Batch};
use crate::data_file::PrimitiveLiteral;
use crate::error::Result;
use crate::model::{text_le, Cell, ColumnKind};
use crate::planner::{
    bounds, build_optimal_predicate, cell_le, column_predicate, datum_of, datums, in_list,
    is_greatest, is_least, key_predicate, prunable, typed_cell, typed_cells, KeyColumn,
};
use crate::planning_laws::bounds_are_values;
use crate::predicate::{datum_set, BinaryOperator, Datum, DatumModel, Predicate};
use crate::schema::PrimitiveType;

verus! {

/// The two are the same value of the same type.
pub open spec fn are_same_datums(a: Datum, b: Datum) -> bool {
    a.data_type == b.data_type && are_same(a.literal, b.literal)
}

proof fn lemma_datums(a: Datum, b: Datum)
    ensures
        a@ == b@ <==> are_same_datums(a, b),
{
    lemma_literals(a.literal, b.literal);
}

/// A literal has the type that it is made for and the value given. Literals are the same where their
/// types and values are, and a copy is the same.
pub proof fn literals_have_type_and_value(
    i: i32,
    int_literal: Datum,
    date_literal: Datum,
    l: i64,
    long_literal: Datum,
    s: String,
    text_literal: Datum,
    a: &Datum,
    b: &Datum,
    same: bool,
    copy: Datum,
)
    requires
        call_ensures(Datum::of_int, (i,), int_literal),
        call_ensures(Datum::of_date, (i,), date_literal),
        call_ensures(Datum::of_long, (l,), long_literal),
        call_ensures(Datum::of_string, (s,), text_literal),
        call_ensures(Datum::same, (a, b), same),
        call_ensures(<Datum as Clone>::clone, (a,), copy),
    ensures
        int_literal.data_type == PrimitiveType::Int && are_same(
            int_literal.literal,
            PrimitiveLiteral::Int(i),
        ),
        date_literal.data_type == PrimitiveType::Date && are_same(
            date_literal.literal,
            PrimitiveLiteral::Int(i),
        ),
        long_literal.data_type == PrimitiveType::Long && are_same(
            long_literal.literal,
            PrimitiveLiteral::Long(l),
        ),
        text_literal.data_type == PrimitiveType::String && are_same(
            text_literal.literal,
            PrimitiveLiteral::String(s),
        ),
        same <==> are_same_datums(*a, *b),
        are_same_datums(*a, copy),
{
    lemma_literals(int_literal.literal, PrimitiveLiteral::Int(i));
    lemma_literals(date_literal.literal, PrimitiveLiteral::Int(i));
    lemma_literals(long_literal.literal, PrimitiveLiteral::Long(l));
    lemma_literals(text_literal.literal, PrimitiveLiteral::String(s));
    lemma_datums(*a, *b);
    lemma_datums(*a, copy);
}

/// The literal is in the list.
pub open spec fn is_among(datum: Datum, list: Seq<Datum>) -> bool {
    exists|j: int| 0 <= j < list.len() && are_same_datums(datum, #[trigger] list[j])
}

/// Each literal of the one list is in the other.
pub open spec fn are_among(a: Seq<Datum>, b: Seq<Datum>) -> bool {
    forall|i: int| 0 <= i < a.len() ==> is_among(#[trigger] a[i], b)
}

/// The predicates are of one form all through, over the same columns, operators and literals.
pub open spec fn are_alike(a: Predicate, b: Predicate) -> bool
    decreases a,
{
    match (a, b) {
        (Predicate::AlwaysTrue, Predicate::AlwaysTrue) => true,
        (Predicate::AlwaysFalse, Predicate::AlwaysFalse) => true,
        (Predicate::And(p, q), Predicate::And(r, s)) => are_alike(*p, *r) && are_alike(*q, *s),
        (Predicate::Or(p, q), Predicate::Or(r, s)) => are_alike(*p, *r) && are_alike(*q, *s),
        (Predicate::Not(p), Predicate::Not(q)) => are_alike(*p, *q),
        (Predicate::Unary { test: x, term: s }, Predicate::Unary { test: y, term: t }) => x == y && s@ == t@,
        (
            Predicate::Binary { op: x, term: s, literal: d },
            Predicate::Binary { op: y, term: t, literal: e },
        ) => x == y && s@ == t@ && are_same_datums(d, e),
        (Predicate::In { term: s, literals: d }, Predicate::In { term: t, literals: e }) => s@ == t@
            && are_among(d@, e@) && are_among(e@, d@),
        (Predicate::NotIn { term: s, literals: d }, Predicate::NotIn { term: t, literals: e }) => s@ == t@
            && are_among(d@, e@) && are_among(e@, d@),
        _ => false,
    }
}

proof fn lemma_among(a: Seq<Datum>, b: Seq<Datum>)
    requires
        datum_set(a) == datum_set(b),
    ensures
        are_among(a, b),
{
    let x = a.map_values(|d: Datum| d@);
    let y = b.map_values(|d: Datum| d@);
    assert forall|i: int| 0 <= i < a.len() implies is_among(#[trigger] a[i], b) by {
        assert(x[i] == a[i]@);
        assert(x.contains(a[i]@));
        assert(x.to_set().contains(a[i]@));
        assert(y.to_set().contains(a[i]@));
        let j = choose|j: int| 0 <= j < y.len() && y[j] == a[i]@;
        assert(y[j] == b[j]@);
        lemma_datums(a[i], b[j]);
    }
}

/// What is said of predicates tells them apart.
pub proof fn lemma_alike(a: Predicate, b: Predicate)
    requires
        a.model() == b.model(),
    ensures
        are_alike(a, b),
    decreases a,
{
    match (a, b) {
        (Predicate::And(p, q), Predicate::And(r, s)) => {
            lemma_alike(*p, *r);
            lemma_alike(*q, *s);
        },
        (Predicate::Or(p, q), Predicate::Or(r, s)) => {
            lemma_alike(*p, *r);
            lemma_alike(*q, *s);
        },
        (Predicate::Not(p), Predicate::Not(q)) => {
            lemma_alike(*p, *q);
        },
        (
            Predicate::Binary { op: x, term: s, literal: d },
            Predicate::Binary { op: y, term: t, literal: e },
        ) => {
            lemma_datums(d, e);
        },
        (Predicate::In { term: s, literals: d }, Predicate::In { term: t, literals: e }) => {
            lemma_among(d@, e@);
            lemma_among(e@, d@);
        },
        (Predicate::NotIn { term: s, literals: d }, Predicate::NotIn { term: t, literals: e }) => {
            lemma_among(d@, e@);
            lemma_among(e@, d@);
        },
        _ => {},
    }
}

/// A copy of a predicate is like it, and a conjunction has both predicates.
pub proof fn predicates_are_copied_and_joined_as_they_are(
    a: &Predicate,
    copy: Predicate,
    p: Predicate,
    q: Predicate,
    both: Predicate,
)
    requires
        call_ensures(<Predicate as Clone>::clone, (a,), copy),
        call_ensures(Predicate::and, (p, q), both),
    ensures
        are_alike(*a, copy),
        both matches Predicate::And(x, y) && are_alike(p, *x) && are_alike(q, *y),
{
    lemma_alike(*a, copy);
    match both {
        Predicate::And(x, y) => {
            lemma_alike(p, *x);
            lemma_alike(q, *y);
        },
        _ => {},
    }
}

/// The literal stands for the value of a column of the kind: a text for a text, and for an integer or
/// date one of the type that the kind calls for, with the integer's value. An unsigned integer beyond
/// the signed range is taken for the signed integer with the same bits.
pub open spec fn stands_for(datum: Datum, kind: ColumnKind, cell: Cell) -> bool {
    match (cell, datum.literal) {
        (Cell::Text(text), PrimitiveLiteral::String(s)) => datum.data_type == PrimitiveType::String && s@
            == text,
        (Cell::Int(v), PrimitiveLiteral::Int(i)) => {
            &&& i == v
            &&& if kind is Date32 {
                datum.data_type == PrimitiveType::Date
            } else {
                datum.data_type == PrimitiveType::Int
            }
            &&& !(kind is Int64) && !(kind is UInt32) && !(kind is UInt64)
        },
        (Cell::Int(v), PrimitiveLiteral::Long(i)) => {
            &&& datum.data_type == PrimitiveType::Long
            &&& kind is Int64 || kind is UInt32 || kind is UInt64
            &&& i == v || (v > i64::MAX && i == v - 0x1_0000_0000_0000_0000)
        },
        _ => false,
    }
}

proof fn lemma_stands_for(datum: Datum, kind: ColumnKind, cell: Cell)
    requires
        prunable(kind),
        typed_cell(kind, cell),
        datum@ == datum_of(kind, cell),
    ensures
        stands_for(datum, kind, cell),
{
}

/// A value that no value of the column is less than, and one that none is greater than.
pub open spec fn is_lowest(cells: Seq<Option<Cell>>, cell: Cell) -> bool {
    &&& cells.contains(Some(cell))
    &&& forall|i: int|
        0 <= i < cells.len() ==> match (cell, #[trigger] cells[i]) {
            (Cell::Int(low), Some(Cell::Int(v))) => low <= v,
            (Cell::Text(low), Some(Cell::Text(v))) => text_le(low, v),
            (_, None) => true,
            _ => false,
        }
}

/// A value that no value of the column is greater than.
pub open spec fn is_highest(cells: Seq<Option<Cell>>, cell: Cell) -> bool {
    &&& cells.contains(Some(cell))
    &&& forall|i: int|
        0 <= i < cells.len() ==> match (cell, #[trigger] cells[i]) {
            (Cell::Int(high), Some(Cell::Int(v))) => v <= high,
            (Cell::Text(high), Some(Cell::Text(v))) => text_le(v, high),
            (_, None) => true,
            _ => false,
        }
}

/// The column has at most a thousand values: a list of that length has them all.
pub open spec fn has_few_values(cells: Seq<Option<Cell>>) -> bool {
    exists|list: Seq<Cell>| #[trigger] list.len() <= 1000 && holds_all(list, cells)
}

/// The list has all values of the column.
pub open spec fn holds_all(list: Seq<Cell>, cells: Seq<Option<Cell>>) -> bool {
    forall|i: int| 0 <= i < cells.len() ==> (#[trigger] cells[i] matches Some(c) ==> list.contains(c))
}

/// The literals stand for the values of the column, for each of them and for no other.
pub open spec fn list_values(literals: Seq<Datum>, kind: ColumnKind, cells: Seq<Option<Cell>>) -> bool {
    &&& forall|i: int|
        0 <= i < cells.len() ==> (#[trigger] cells[i] matches Some(c) ==> is_listed_in(literals, kind, c))
    &&& forall|j: int| 0 <= j < literals.len() ==> stands_for_one_of(#[trigger] literals[j], kind, cells)
}

/// A literal of the list stands for the value.
pub open spec fn is_listed_in(literals: Seq<Datum>, kind: ColumnKind, cell: Cell) -> bool {
    exists|j: int| 0 <= j < literals.len() && stands_for(#[trigger] literals[j], kind, cell)
}

/// The literal stands for a value of the column.
pub open spec fn stands_for_one_of(datum: Datum, kind: ColumnKind, cells: Seq<Option<Cell>>) -> bool {
    exists|c: Cell| cells.contains(Some(c)) && #[trigger] stands_for(datum, kind, c)
}

proof fn lemma_datums_of(kind: ColumnKind, cells: Seq<Option<Cell>>, d: DatumModel)
    ensures
        datums(kind, cells).contains(d) <==> exists|i: int|
            0 <= i < cells.len() && (#[trigger] cells[i]) is Some && d == datum_of(kind, cells[i]->0),
    decreases cells.len(),
{
    if cells.len() > 0 {
        let rest = cells.drop_last();
        let n = cells.len() - 1;
        let shorter = datums(kind, rest);
        let all = datums(kind, cells);
        lemma_datums_of(kind, rest, d);
        if all.contains(d) {
            let j = choose|j: int| 0 <= j < all.len() && all[j] == d;
            if j < shorter.len() {
                assert(shorter[j] == d);
                let i = choose|i: int|
                    0 <= i < rest.len() && (#[trigger] rest[i]) is Some && d == datum_of(kind, rest[i]->0);
                assert(cells[i] is Some && d == datum_of(kind, cells[i]->0));
            } else {
                assert(cells[n] is Some && d == datum_of(kind, cells[n]->0));
            }
        }
        if exists|i: int|
            0 <= i < cells.len() && (#[trigger] cells[i]) is Some && d == datum_of(kind, cells[i]->0) {
            let i = choose|i: int|
                0 <= i < cells.len() && (#[trigger] cells[i]) is Some && d == datum_of(kind, cells[i]->0);
            if i < n {
                assert(rest[i] is Some && d == datum_of(kind, rest[i]->0));
                let j = choose|j: int| 0 <= j < shorter.len() && shorter[j] == d;
                assert(all[j] == d);
            } else {
                assert(all[all.len() - 1] == d);
            }
        }
    }
}

proof fn lemma_list(kind: ColumnKind, cells: Seq<Option<Cell>>, literals: Seq<Datum>)
    requires
        prunable(kind),
        typed_cells(kind, cells),
        datum_set(literals) == datums(kind, cells).to_set(),
    ensures
        list_values(literals, kind, cells),
{
    let models = literals.map_values(|d: Datum| d@);
    let all = datums(kind, cells);
    assert forall|i: int| 0 <= i < cells.len() implies (#[trigger] cells[i] matches Some(c) ==> is_listed_in(
        literals,
        kind,
        c,
    )) by {
        if let Some(c) = cells[i] {
            let d = datum_of(kind, c);
            lemma_datums_of(kind, cells, d);
            assert(cells[i] is Some && d == datum_of(kind, cells[i]->0));
            assert(all.to_set().contains(d));
            assert(models.to_set().contains(d));
            let j = choose|j: int| 0 <= j < models.len() && models[j] == d;
            assert(models[j] == literals[j]@);
            lemma_stands_for(literals[j], kind, c);
        }
    }
    assert forall|j: int| 0 <= j < literals.len() implies stands_for_one_of(
        #[trigger] literals[j],
        kind,
        cells,
    ) by {
        let d = literals[j]@;
        assert(models[j] == d);
        assert(models.to_set().contains(d));
        assert(all.to_set().contains(d));
        lemma_datums_of(kind, cells, d);
        let i = choose|i: int|
            0 <= i < cells.len() && (#[trigger] cells[i]) is Some && d == datum_of(kind, cells[i]->0);
        assert(cells[i] == Some(cells[i]->0));
        lemma_stands_for(literals[j], kind, cells[i]->0);
    }
}

proof fn lemma_few(kind: ColumnKind, cells: Seq<Option<Cell>>)
    requires
        prunable(kind),
    ensures
        !all_null(cells) ==> datums(kind, cells).to_set().len() > 0,
        all_null(cells) ==> datums(kind, cells).len() == 0,
        has_few_values(cells) ==> datums(kind, cells).to_set().len() <= 1000,
{
    let all = datums(kind, cells);
    vstd::seq_lib::seq_to_set_is_finite(all);
    if !all_null(cells) {
        let i = choose|i: int| 0 <= i < cells.len() && cells[i] is Some;
        let d = datum_of(kind, cells[i]->0);
        lemma_datums_of(kind, cells, d);
        assert(cells[i] is Some && d == datum_of(kind, cells[i]->0));
        assert(all.to_set().contains(d));
        if all.to_set().len() == 0 {
            assert(all.to_set() =~= Set::empty());
        }
    } else if all.len() > 0 {
        assert(all.contains(all[0]));
        lemma_datums_of(kind, cells, all[0]);
        let i = choose|i: int|
            0 <= i < cells.len() && (#[trigger] cells[i]) is Some && all[0] == datum_of(kind, cells[i]->0);
        assert(cells[i] is None);
    }
    if has_few_values(cells) {
        let list = choose|list: Seq<Cell>| #[trigger] list.len() <= 1000 && holds_all(list, cells);
        let image = list.map_values(|c: Cell| datum_of(kind, c));
        assert forall|d: DatumModel| all.to_set().contains(d) implies image.to_set().contains(d) by {
            assert(all.contains(d));
            lemma_datums_of(kind, cells, d);
            let i = choose|i: int|
                0 <= i < cells.len() && (#[trigger] cells[i]) is Some && d == datum_of(kind, cells[i]->0);
            assert(list.contains(cells[i]->0));
            let j = choose|j: int| 0 <= j < list.len() && list[j] == cells[i]->0;
            assert(image[j] == d);
        }
        vstd::seq_lib::seq_to_set_is_finite(image);
        vstd::set_lib::lemma_len_subset(all.to_set(), image.to_set());
        image.lemma_cardinality_of_set();
    }
}

/// The elements of a set as a list.
proof fn listed(elements: Set<DatumModel>) -> (list: Seq<DatumModel>)
    requires
        elements.finite(),
    ensures
        list.len() == elements.len(),
        forall|d: DatumModel| elements.contains(d) ==> #[trigger] list.contains(d),
    decreases elements.len(),
{
    if elements.len() == 0 {
        Seq::empty()
    } else {
        let one = elements.choose();
        let rest = listed(elements.remove(one));
        let list = rest.push(one);
        assert forall|d: DatumModel| elements.contains(d) implies #[trigger] list.contains(d) by {
            if d == one {
                assert(list[rest.len() as int] == d);
            } else {
                assert(elements.remove(one).contains(d));
                assert(rest.contains(d));
                let i = choose|i: int| 0 <= i < rest.len() && rest[i] == d;
                assert(list[i] == d);
            }
        }
        list
    }
}

/// The values of a column are as few as the literals that stand for them.
proof fn lemma_few_literals(kind: ColumnKind, cells: Seq<Option<Cell>>)
    requires
        prunable(kind),
        typed_cells(kind, cells),
        datums(kind, cells).to_set().len() <= 1000,
    ensures
        has_few_values(cells),
{
    let all = datums(kind, cells).to_set();
    vstd::seq_lib::seq_to_set_is_finite(datums(kind, cells));
    let list = listed(all);
    let back = |d: DatumModel| choose|c: Cell| cells.contains(Some(c)) && #[trigger] datum_of(kind, c) == d;
    let values = list.map_values(back);
    assert(holds_all(values, cells)) by {
        assert forall|i: int| 0 <= i < cells.len() implies (#[trigger] cells[i] matches Some(c)
            ==> values.contains(c)) by {
            if let Some(c) = cells[i] {
                let d = datum_of(kind, c);
                lemma_datums_of(kind, cells, d);
                assert(cells[i] is Some && d == datum_of(kind, cells[i]->0));
                assert(datums(kind, cells).contains(d));
                assert(all.contains(d));
                assert(list.contains(d));
                let j = choose|j: int| 0 <= j < list.len() && list[j] == d;
                let e = back(d);
                assert(cells.contains(Some(c)) && datum_of(kind, c) == d);
                assert(cells.contains(Some(e)) && datum_of(kind, e) == d);
                let k = choose|k: int| 0 <= k < cells.len() && cells[k] == Some(e);
                assert(typed_cell(kind, cells[k]->0));
                assert(typed_cell(kind, cells[i]->0));
                lemma_one_to_one(kind, c, e);
                assert(values[j] == c);
            }
        }
    }
    assert(values.len() <= 1000) by {
        assert(list.len() == all.len());
    }
}

/// A literal stands for one value.
proof fn lemma_one_to_one(kind: ColumnKind, a: Cell, b: Cell)
    requires
        prunable(kind),
        typed_cell(kind, a),
        typed_cell(kind, b),
        datum_of(kind, a) == datum_of(kind, b),
    ensures
        a == b,
{
}

/// The predicate of one key column. There is none where the source is empty, the column holds nothing
/// but nulls, or is of a kind other than integers, dates and texts. Where the column has at most a
/// thousand values, the predicate lists them, each of them and no other. Else it bounds them by the
/// lowest and the highest.
pub proof fn a_key_column_is_listed_or_bounded(
    source: &Batch,
    keys: &[KeyColumn],
    built: Result<Option<Predicate>>,
    kind: ColumnKind,
    cells: Seq<Option<Cell>>,
)
    requires
        call_ensures(build_optimal_predicate, (source, keys), built),
        keys@.len() == 1,
        kind == source@.columns[keys@[0].schema_index as int].data_type.kind,
        cells == source@.columns[keys@[0].schema_index as int].cells,
    ensures
        built is Ok,
        built->Ok_0 is None <==> {
            ||| source@.rows == 0
            ||| forall|i: int| 0 <= i < cells.len() ==> (#[trigger] cells[i]) is None
            ||| !kind.is_signed() && !kind.is_unsigned() && !(kind is Utf8)
        },
        built->Ok_0 is Some && has_few_values(cells) ==> (built->Ok_0->0 matches Predicate::In {
            term,
            literals,
        } && term@ == keys@[0].name@ && list_values(literals@, kind, cells)),
        built->Ok_0 is Some && !has_few_values(cells) ==> (built->Ok_0->0 matches Predicate::And(p, q) && (
        *p matches Predicate::Binary { op: above, term: s, literal: low } && above
            == BinaryOperator::GreaterThanOrEq && s@ == keys@[0].name@ && exists|c: Cell|
            is_lowest(cells, c) && #[trigger] stands_for(low, kind, c)) && (*q matches Predicate::Binary {
            op: below,
            term: t,
            literal: high,
        } && below == BinaryOperator::LessThanOrEq && t@ == keys@[0].name@ && exists|c: Cell|
            is_highest(cells, c) && #[trigger] stands_for(high, kind, c))),
{
    let name = keys@[0].name@;
    assert(keys@.drop_last() =~= Seq::empty());
    assert(keys@.last() == keys@[0]);
    assert(key_predicate(source@, keys@.drop_last()) is None);
    assert(key_predicate(source@, keys@) == column_predicate(name, kind, cells));
    assert(all_null(cells) <==> forall|i: int| 0 <= i < cells.len() ==> (#[trigger] cells[i]) is None);
    if source@.rows > 0 && prunable(kind) {
        assert(typed_cells(kind, cells)) by {
            assert(keys@[0].schema_index == keys@[0].schema_index);
        }
        lemma_few(kind, cells);
        if datums(kind, cells).to_set().len() <= 1000 {
            lemma_few_literals(kind, cells);
        }
        if !all_null(cells) {
            let p = built->Ok_0->0;
            if has_few_values(cells) {
                assert(in_list(name, kind, cells) is Some);
                match p {
                    Predicate::In { term, literals } => {
                        lemma_list(kind, cells, literals@);
                    },
                    _ => {},
                }
            } else {
                assert(in_list(name, kind, cells) is None);
                assert(bounds(name, kind, cells) == Some(p.model()));
                reveal_with_fuel(Predicate::model, 3);
                bounds_are_values(kind, cells);
                let least = choose|c: Cell| is_least(cells, c);
                let greatest = choose|c: Cell| is_greatest(cells, c);
                lemma_lowest(kind, cells, least);
                lemma_highest(kind, cells, greatest);
                match p {
                    Predicate::And(a, b) => {
                        match (*a, *b) {
                            (
                                Predicate::Binary { op: above, term: s, literal: low },
                                Predicate::Binary { op: below, term: t, literal: high },
                            ) => {
                                lemma_stands_for(low, kind, least);
                                lemma_stands_for(high, kind, greatest);
                                assert(is_lowest(cells, least) && stands_for(low, kind, least));
                                assert(is_highest(cells, greatest) && stands_for(high, kind, greatest));
                            },
                            _ => {},
                        }
                    },
                    _ => {},
                }
            }
        } else {
            assert(datums(kind, cells).to_set() =~= Set::empty());
            assert(in_list(name, kind, cells) is None);
        }
    }
}

proof fn lemma_lowest(kind: ColumnKind, cells: Seq<Option<Cell>>, cell: Cell)
    requires
        typed_cells(kind, cells),
        is_least(cells, cell),
    ensures
        is_lowest(cells, cell),
        typed_cell(kind, cell),
{
    let at = choose|i: int| 0 <= i < cells.len() && cells[i] == Some(cell);
    assert(typed_cell(kind, cells[at]->0));
    assert forall|i: int| 0 <= i < cells.len() implies match (cell, #[trigger] cells[i]) {
        (Cell::Int(low), Some(Cell::Int(v))) => low <= v,
        (Cell::Text(low), Some(Cell::Text(v))) => text_le(low, v),
        (_, None) => true,
        _ => false,
    } by {
        if let Some(c) = cells[i] {
            assert(cell_le(cell, c));
        }
    }
}

proof fn lemma_highest(kind: ColumnKind, cells: Seq<Option<Cell>>, cell: Cell)
    requires
        typed_cells(kind, cells),
        is_greatest(cells, cell),
    ensures
        is_highest(cells, cell),
        typed_cell(kind, cell),
{
    let at = choose|i: int| 0 <= i < cells.len() && cells[i] == Some(cell);
    assert(typed_cell(kind, cells[at]->0));
    assert forall|i: int| 0 <= i < cells.len() implies match (cell, #[trigger] cells[i]) {
        (Cell::Int(high), Some(Cell::Int(v))) => v <= high,
        (Cell::Text(high), Some(Cell::Text(v))) => text_le(v, high),
        (_, None) => true,
        _ => false,
    } by {
        if let Some(c) = cells[i] {
            assert(cell_le(c, cell));
        }
    }
}

/// The predicate of several key columns is the conjunction of that of all but the last and of that of
/// the last, or the one of the two that there is.
pub proof fn key_columns_are_pruned_together(
    source: &Batch,
    keys: &[KeyColumn],
    built: Result<Option<Predicate>>,
    front: &[KeyColumn],
    of_front: Result<Option<Predicate>>,
    back: &[KeyColumn],
    of_back: Result<Option<Predicate>>,
)
    requires
        call_ensures(build_optimal_predicate, (source, keys), built),
        call_ensures(build_optimal_predicate, (source, front), of_front),
        call_ensures(build_optimal_predicate, (source, back), of_back),
        keys@ == front@ + back@,
        back@.len() == 1,
    ensures
        built is Ok && of_front is Ok && of_back is Ok,
        match (of_front->Ok_0, of_back->Ok_0) {
            (Some(p), Some(q)) => built->Ok_0 is Some && (built->Ok_0->0 matches Predicate::And(x, y)
                && are_alike(p, *x) && are_alike(q, *y)),
            (Some(p), None) => built->Ok_0 is Some && are_alike(p, built->Ok_0->0),
            (None, Some(q)) => built->Ok_0 is Some && are_alike(q, built->Ok_0->0),
            (None, None) => built->Ok_0 is None,
        },
{
    assert(keys@.drop_last() =~= front@);
    assert(keys@.last() == back@[0]);
    assert(back@.drop_last() =~= Seq::empty());
    assert(back@.last() == back@[0]);
    assert(key_predicate(source@, back@.drop_last()) is None);
    match (of_front->Ok_0, of_back->Ok_0) {
        (Some(p), Some(q)) => {
            match built->Ok_0->0 {
                Predicate::And(x, y) => {
                    lemma_alike(p, *x);
                    lemma_alike(q, *y);
                },
                _ => {},
            }
        },
        (Some(p), None) => {
            lemma_alike(p, built->Ok_0->0);
        },
        (None, Some(q)) => {
            lemma_alike(q, built->Ok_0->0);
        },
        (None, None) => {},
    }
}

}
