//! The rows that batches and files hold, as multisets.
use vstd::multiset::Multiset;
use vstd::prelude::*;
use vstd::seq_lib::to_multiset_build;

use crate::model::{count_true, lemma_selected, selected, BatchModel, Cell, Row};

verus! {

/// The rows at which a mask is true.
pub open spec fn masked(rows: Seq<Row>, mask: Seq<bool>) -> Multiset<Row>
    decreases rows.len(),
{
    if rows.len() == 0 {
        Multiset::empty()
    } else if mask[rows.len() - 1] {
        masked(rows.drop_last(), mask).insert(rows.last())
    } else {
        masked(rows.drop_last(), mask)
    }
}

/// The rows of some batches.
pub open spec fn rows_of(batches: Seq<BatchModel>) -> Multiset<Row>
    decreases batches.len(),
{
    if batches.len() == 0 {
        Multiset::empty()
    } else {
        rows_of(batches.drop_last()).add(batches.last().all_rows().to_multiset())
    }
}

/// Masks that agree on the rows select the same rows.
pub proof fn lemma_masked_agree(rows: Seq<Row>, a: Seq<bool>, b: Seq<bool>)
    requires
        forall|i: int| 0 <= i < rows.len() ==> #[trigger] a[i] == b[i],
    ensures
        masked(rows, a) == masked(rows, b),
    decreases rows.len(),
{
    if rows.len() > 0 {
        assert(a[rows.len() - 1] == b[rows.len() - 1]);
        lemma_masked_agree(rows.drop_last(), a, b);
    }
}

/// Setting one more bit selects one more row.
pub proof fn lemma_masked_set(rows: Seq<Row>, mask: Seq<bool>, s: int)
    requires
        0 <= s < rows.len() == mask.len(),
        !mask[s],
    ensures
        masked(rows, mask.update(s, true)) == masked(rows, mask).insert(rows[s]),
    decreases rows.len(),
{
    let n = rows.len() - 1;
    let rest = rows.drop_last();
    if s == n {
        lemma_masked_agree(rest, mask.update(s, true), mask);
    } else {
        let short = mask.drop_last();
        lemma_masked_set(rest, short, s);
        lemma_masked_agree(rest, mask.update(s, true), short.update(s, true));
        lemma_masked_agree(rest, mask, short);
        if mask[n] {
            assert(masked(rest, mask).insert(rows[s]).insert(rows.last()) =~= masked(rest, mask).insert(
                rows.last(),
            ).insert(rows[s]));
        }
    }
}

/// Two masks that are nowhere both true select together what either selects.
pub proof fn lemma_masked_split(rows: Seq<Row>, a: Seq<bool>, b: Seq<bool>, either: Seq<bool>)
    requires
        forall|i: int| 0 <= i < rows.len() ==> !(#[trigger] a[i] && b[i]),
        forall|i: int| 0 <= i < rows.len() ==> #[trigger] either[i] == (a[i] || b[i]),
    ensures
        masked(rows, either) == masked(rows, a).add(masked(rows, b)),
    decreases rows.len(),
{
    if rows.len() > 0 {
        let n = rows.len() - 1;
        lemma_masked_split(rows.drop_last(), a, b, either);
        assert(!(a[n] && b[n]));
        assert(either[n] == (a[n] || b[n]));
        assert(masked(rows, either) =~= masked(rows, a).add(masked(rows, b)));
    } else {
        assert(masked(rows, either) =~= masked(rows, a).add(masked(rows, b)));
    }
}

/// A mask that is true everywhere selects all rows.
pub proof fn lemma_masked_all(rows: Seq<Row>, mask: Seq<bool>)
    requires
        forall|i: int| 0 <= i < rows.len() ==> #[trigger] mask[i],
    ensures
        masked(rows, mask) == rows.to_multiset(),
    decreases rows.len(),
{
    if rows.len() == 0 {
        assert(rows =~= Seq::<Row>::empty());
        rows.to_multiset_ensures();
        assert(rows.to_multiset() =~= Multiset::<Row>::empty());
    } else {
        assert(mask[rows.len() - 1]);
        lemma_masked_all(rows.drop_last(), mask);
        to_multiset_build(rows.drop_last(), rows.last());
        assert(rows.drop_last().push(rows.last()) =~= rows);
    }
}

/// A mask that is true nowhere selects nothing.
pub proof fn lemma_masked_none(rows: Seq<Row>, mask: Seq<bool>)
    requires
        forall|i: int| 0 <= i < rows.len() ==> !#[trigger] mask[i],
    ensures
        masked(rows, mask) == Multiset::<Row>::empty(),
    decreases rows.len(),
{
    if rows.len() > 0 {
        assert(!mask[rows.len() - 1]);
        lemma_masked_none(rows.drop_last(), mask);
    }
}

/// The rows of a filtered batch are those that the mask selects.
pub proof fn lemma_select_rows(batch: BatchModel, mask: Seq<bool>)
    requires
        batch.wf(),
        mask.len() == batch.rows,
    ensures
        batch.select(selected(mask)).all_rows().to_multiset() == masked(batch.all_rows(), mask),
{
    let rows = batch.select(selected(mask)).all_rows();
    let picked = selected(mask).map_values(|r: int| batch.row(r));
    lemma_selected(mask);
    assert forall|j: int| 0 <= j < rows.len() implies rows[j] == picked[j] by {
        assert(rows[j] =~= picked[j]);
    }
    assert(rows =~= picked);
    lemma_picked_rows(batch, mask, mask.len());
    assert(mask.take(mask.len() as int) =~= mask);
    assert(batch.all_rows().take(mask.len() as int) =~= batch.all_rows());
}

proof fn lemma_picked_rows(batch: BatchModel, mask: Seq<bool>, n: nat)
    requires
        mask.len() == batch.rows,
        n <= mask.len(),
    ensures
        selected(mask.take(n as int)).map_values(|r: int| batch.row(r)).to_multiset() == masked(
            batch.all_rows().take(n as int),
            mask,
        ),
    decreases n,
{
    let f = |r: int| batch.row(r);
    let picked = selected(mask.take(n as int)).map_values(f);
    if n == 0 {
        assert(picked =~= Seq::<Row>::empty());
        picked.to_multiset_ensures();
        assert(picked.to_multiset() =~= Multiset::<Row>::empty());
    } else {
        let p = (n - 1) as nat;
        lemma_picked_rows(batch, mask, p);
        assert(mask.take(n as int).drop_last() =~= mask.take(p as int));
        assert(batch.all_rows().take(n as int).drop_last() =~= batch.all_rows().take(p as int));
        if mask[p as int] {
            let before = selected(mask.take(p as int)).map_values(f);
            assert(picked =~= before.push(batch.row(p as int)));
            to_multiset_build(before, batch.row(p as int));
        }
    }
}

/// The rows of two lists of batches together.
pub proof fn lemma_rows_of_concat(a: Seq<BatchModel>, b: Seq<BatchModel>)
    ensures
        rows_of(a + b) == rows_of(a).add(rows_of(b)),
    decreases b.len(),
{
    if b.len() == 0 {
        assert(a + b =~= a);
        assert(rows_of(a) =~= rows_of(a).add(rows_of(b)));
    } else {
        lemma_rows_of_concat(a, b.drop_last());
        assert((a + b).drop_last() =~= a + b.drop_last());
        assert(rows_of(a + b) =~= rows_of(a).add(rows_of(b)));
    }
}

/// The rows of one batch.
pub proof fn lemma_rows_of_one(batch: BatchModel)
    ensures
        rows_of(seq![batch]) == batch.all_rows().to_multiset(),
{
    reveal_with_fuel(rows_of, 2);
    assert(seq![batch].drop_last() =~= Seq::<BatchModel>::empty());
    assert(rows_of(seq![batch]) =~= batch.all_rows().to_multiset());
}

/// A mask selects as many rows as it has true positions.
pub proof fn lemma_masked_len(rows: Seq<Row>, mask: Seq<bool>)
    requires
        rows.len() == mask.len(),
    ensures
        masked(rows, mask).len() == count_true(mask),
    decreases rows.len(),
{
    if rows.len() > 0 {
        lemma_masked_len(rows.drop_last(), mask.drop_last());
        lemma_masked_agree(rows.drop_last(), mask, mask.drop_last());
    }
}

/// Setting one more bit counts one more.
pub proof fn lemma_count_set(mask: Seq<bool>, s: int)
    requires
        0 <= s < mask.len(),
        !mask[s],
    ensures
        count_true(mask.update(s, true)) == count_true(mask) + 1,
{
    let rows = Seq::new(mask.len(), |i: int| Seq::<Option<Cell>>::empty());
    lemma_masked_len(rows, mask);
    lemma_masked_len(rows, mask.update(s, true));
    lemma_masked_set(rows, mask, s);
}

/// A mask selects a row exactly where it is true at one of the row's positions.
pub proof fn lemma_masked_contains(rows: Seq<Row>, mask: Seq<bool>, row: Row)
    ensures
        masked(rows, mask).count(row) > 0 <==> exists|i: int|
            0 <= i < rows.len() && mask[i] && #[trigger] rows[i] == row,
    decreases rows.len(),
{
    if rows.len() > 0 {
        let n = rows.len() - 1;
        let rest = rows.drop_last();
        lemma_masked_contains(rest, mask, row);
        if masked(rest, mask).count(row) > 0 {
            let i = choose|i: int| 0 <= i < rest.len() && mask[i] && #[trigger] rest[i] == row;
            assert(rows[i] == row);
        }
        if exists|i: int| 0 <= i < rows.len() && mask[i] && #[trigger] rows[i] == row {
            let i = choose|i: int| 0 <= i < rows.len() && mask[i] && #[trigger] rows[i] == row;
            if i < n {
                assert(rest[i] == row);
            }
        }
    }
}

/// A mask that is true where either of two is selects the rows that either of them selects.
pub proof fn lemma_masked_either(rows: Seq<Row>, a: Seq<bool>, b: Seq<bool>, either: Seq<bool>, row: Row)
    requires
        forall|i: int| 0 <= i < rows.len() ==> #[trigger] either[i] == (a[i] || b[i]),
    ensures
        masked(rows, either).count(row) > 0 <==> masked(rows, a).count(row) > 0 || masked(rows, b).count(row) > 0,
    decreases rows.len(),
{
    if rows.len() > 0 {
        assert(either[rows.len() - 1] == (a[rows.len() - 1] || b[rows.len() - 1]));
        lemma_masked_either(rows.drop_last(), a, b, either, row);
    }
}

/// Some batches hold a row exactly where one of them does.
pub proof fn lemma_rows_of_contains(batches: Seq<BatchModel>, row: Row)
    ensures
        rows_of(batches).count(row) > 0 <==> exists|b: int, t: int|
            0 <= b < batches.len() && 0 <= t < batches[b].rows && #[trigger] batches[b].row(t) == row,
    decreases batches.len(),
{
    if batches.len() > 0 {
        let rest = batches.drop_last();
        let n = batches.len() - 1;
        let rows = batches[n].all_rows();
        lemma_rows_of_contains(rest, row);
        rows.to_multiset_ensures();
        if rows_of(batches).count(row) > 0 {
            if rows_of(rest).count(row) > 0 {
                let (b, t) = choose|b: int, t: int|
                    0 <= b < rest.len() && 0 <= t < rest[b].rows && #[trigger] rest[b].row(t) == row;
                assert(batches[b].row(t) == row);
            } else {
                assert(rows.to_multiset().count(row) > 0);
                assert(rows.contains(row));
                let t = choose|t: int| 0 <= t < rows.len() && rows[t] == row;
                assert(batches[n].row(t) == row);
            }
        }
        if exists|b: int, t: int|
            0 <= b < batches.len() && 0 <= t < batches[b].rows && #[trigger] batches[b].row(t) == row {
            let (b, t) = choose|b: int, t: int|
                0 <= b < batches.len() && 0 <= t < batches[b].rows && #[trigger] batches[b].row(t) == row;
            if b < n {
                assert(rest[b].row(t) == row);
            } else {
                assert(rows[t] == row);
                assert(rows.contains(row));
            }
        }
    }
}

}
