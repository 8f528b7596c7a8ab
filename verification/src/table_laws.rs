//! The rows of a table, by the files that it is made of.
use vstd::multiset::Multiset;
use vstd::prelude::*;
use vstd::seq_lib::lemma_multiset_commutative;

use crate::contents::{masked, rows_of};
use crate::cow_executor::MergeModel;
use crate::data_file::DataFile;
use crate::key_laws::agree_in;
use crate::laws::table_rows;
use crate::matching_laws::{has_match, is_match, lemma_is_match, lemma_is_matched_by};
use crate::merge_laws::{lemma_merge_masks, rows_in_order};
use crate::model::{in_columns, BatchModel, Row};

verus! {

/// What each file holds.
pub type Store = spec_fn(DataFile) -> Multiset<Row>;

/// The rows that the files hold together.
pub open spec fn held_by(store: Store, files: Seq<DataFile>) -> Multiset<Row>
    decreases files.len(),
{
    if files.len() == 0 {
        Multiset::empty()
    } else {
        held_by(store, files.drop_last()).add(store(files.last()))
    }
}

/// The files of a table once some are deleted and others are added.
pub open spec fn are_files_after(
    after: Seq<DataFile>,
    before: Seq<DataFile>,
    deleted: Seq<DataFile>,
    added: Seq<DataFile>,
) -> bool {
    after.to_multiset() == before.to_multiset().sub(deleted.to_multiset()).add(added.to_multiset())
}

/// The row has the key of a source row: it agrees with it in all key columns.
pub open spec fn has_key_of_source(source: BatchModel, row: Row, keys: Seq<usize>) -> bool {
    exists|s: int| 0 <= s < source.rows && #[trigger] agrees_with(source, s, row, keys)
}

/// The row agrees with source row `s` in all key columns.
pub open spec fn agrees_with(source: BatchModel, s: int, row: Row, keys: Seq<usize>) -> bool {
    forall|k: int|
        0 <= k < keys.len() ==> row[#[trigger] keys[k] as int] == source.columns[keys[k] as int].cells[s]
}

/// Every column of the source is a key column or is compared.
pub open spec fn all_columns_are_read(source: BatchModel, keys: Seq<usize>, non_keys: Seq<usize>) -> bool {
    forall|c: int|
        #![trigger source.columns[c]]
        0 <= c < source.columns.len() ==> {
            ||| exists|k: int| 0 <= k < keys.len() && #[trigger] keys[k] == c
            ||| exists|k: int| 0 <= k < non_keys.len() && #[trigger] non_keys[k] == c
        }
}

/// No source row is matched by two rows of the files.
pub open spec fn matched_at_most_once(
    source: BatchModel,
    files: Seq<Seq<BatchModel>>,
    keys: Seq<usize>,
) -> bool {
    forall|s: int, f: int, b: int, t: int, g: int, c: int, u: int|
        0 <= f < files.len() && 0 <= b < files[f].len() && 0 <= g < files.len() && 0 <= c < files[g].len()
            && #[trigger] is_match(source, s, files[f][b], t, keys) && #[trigger] is_match(
            source,
            s,
            files[g][c],
            u,
            keys,
        ) ==> f == g && b == c && t == u
}

/// Files together hold what they hold apart.
pub proof fn lemma_held_concat(store: Store, a: Seq<DataFile>, b: Seq<DataFile>)
    ensures
        held_by(store, a + b) == held_by(store, a).add(held_by(store, b)),
    decreases b.len(),
{
    if b.len() == 0 {
        assert(a + b =~= a);
        assert(held_by(store, a).add(held_by(store, b)) =~= held_by(store, a));
    } else {
        lemma_held_concat(store, a, b.drop_last());
        assert((a + b).drop_last() =~= a + b.drop_last());
        assert(held_by(store, a + b) =~= held_by(store, a).add(held_by(store, b)));
    }
}

proof fn lemma_held_remove(store: Store, files: Seq<DataFile>, i: int)
    requires
        0 <= i < files.len(),
    ensures
        held_by(store, files) == held_by(store, files.remove(i)).add(store(files[i])),
    decreases files.len(),
{
    let rest = files.drop_last();
    if i == files.len() - 1 {
        assert(files.remove(i) =~= rest);
    } else {
        lemma_held_remove(store, rest, i);
        assert(files.remove(i).drop_last() =~= rest.remove(i));
        assert(files.remove(i).last() == files.last());
        assert(held_by(store, files) =~= held_by(store, files.remove(i)).add(store(files[i])));
    }
}

/// The rows do not depend on the order of the files.
proof fn lemma_held_permuted(store: Store, a: Seq<DataFile>, b: Seq<DataFile>)
    requires
        a.to_multiset() == b.to_multiset(),
    ensures
        held_by(store, a) == held_by(store, b),
    decreases a.len(),
{
    a.to_multiset_ensures();
    b.to_multiset_ensures();
    if a.len() > 0 {
        let last = a.last();
        let n = a.len() - 1;
        assert(a.contains(a[n]));
        assert(a.to_multiset().count(last) > 0);
        assert(b.contains(last)) by {
            assert(b.to_multiset().count(last) > 0);
        }
        let i = choose|i: int| 0 <= i < b.len() && b[i] == last;
        assert(a.remove(n) =~= a.drop_last());
        assert(a.remove(n).to_multiset() =~= b.remove(i).to_multiset());
        lemma_held_permuted(store, a.drop_last(), b.remove(i));
        lemma_held_remove(store, b, i);
    }
}

/// The rows of a table once files are deleted and added: those of the files that stay and of the
/// added ones.
pub proof fn lemma_files_after(
    store: Store,
    after: Seq<DataFile>,
    before: Seq<DataFile>,
    staying: Seq<DataFile>,
    deleted: Seq<DataFile>,
    added: Seq<DataFile>,
)
    requires
        are_files_after(after, before, deleted, added),
        before.to_multiset() == staying.to_multiset().add(deleted.to_multiset()),
    ensures
        held_by(store, after) == held_by(store, staying).add(held_by(store, added)),
{
    lemma_multiset_commutative(staying, added);
    assert(before.to_multiset().sub(deleted.to_multiset()) =~= staying.to_multiset());
    assert(after.to_multiset() =~= (staying + added).to_multiset());
    lemma_held_permuted(store, after, staying + added);
    lemma_held_concat(store, staying, added);
}

/// The rows of batches as a multiset are their rows one after the other.
pub proof fn lemma_rows_of_in_order(batches: Seq<BatchModel>)
    ensures
        rows_in_order(batches).to_multiset() == rows_of(batches),
    decreases batches.len(),
{
    let f = |b: BatchModel| b.all_rows();
    if batches.len() == 0 {
        assert(batches.map_values(f) =~= Seq::empty());
        assert(rows_in_order(batches) =~= Seq::empty());
        rows_in_order(batches).to_multiset_ensures();
        assert(rows_in_order(batches).to_multiset() =~= Multiset::empty());
    } else {
        let rest = batches.drop_last();
        lemma_rows_of_in_order(rest);
        assert(batches.map_values(f) =~= rest.map_values(f).push(f(batches.last())));
        rest.map_values(f).lemma_flatten_push(f(batches.last()));
        lemma_multiset_commutative(rows_in_order(rest), f(batches.last()));
    }
}

/// A row of a batch has the key of a source row exactly where it matches.
pub proof fn lemma_key_of_source(source: BatchModel, target: BatchModel, keys: Seq<usize>, t: int)
    requires
        keys.len() > 0,
        in_columns(keys, target),
        0 <= t < target.rows,
    ensures
        has_key_of_source(source, target.row(t), keys) <==> has_match(source, target, t, keys),
{
    let row = target.row(t);
    assert forall|s: int| 0 <= s < source.rows implies (agrees_with(source, s, row, keys) <==> agree_in(
        source,
        s,
        target,
        t,
        keys,
    )) by {
        if agrees_with(source, s, row, keys) {
            assert forall|k: int| 0 <= k < keys.len() implies source.columns[#[trigger] keys[k] as int].cells[s]
                == target.columns[keys[k] as int].cells[t] by {
                assert(row[keys[k] as int] == source.columns[keys[k] as int].cells[s]);
            }
        }
        if agree_in(source, s, target, t, keys) {
            assert forall|k: int| 0 <= k < keys.len() implies row[#[trigger] keys[k] as int]
                == source.columns[keys[k] as int].cells[s] by {
                assert(source.columns[keys[k] as int].cells[s] == target.columns[keys[k] as int].cells[t]);
            }
        }
    }
    if has_match(source, target, t, keys) {
        let s = choose|s: int| 0 <= s < source.rows && #[trigger] agree_in(source, s, target, t, keys);
        assert(agrees_with(source, s, row, keys));
    }
    if has_key_of_source(source, row, keys) {
        let s = choose|s: int| 0 <= s < source.rows && #[trigger] agrees_with(source, s, row, keys);
        assert(agree_in(source, s, target, t, keys));
    }
}

/// The rows that a mask leaves out are counted where the mask says so of the row.
proof fn lemma_masked_count(rows: Seq<Row>, mask: Seq<bool>, row: Row, counts: bool)
    requires
        forall|i: int| 0 <= i < rows.len() && #[trigger] rows[i] == row ==> mask[i] == counts,
    ensures
        masked(rows, mask).count(row) == if counts {
            rows.to_multiset().count(row)
        } else {
            0
        },
    decreases rows.len(),
{
    if rows.len() == 0 {
        rows.to_multiset_ensures();
        assert(!rows.contains(row));
    } else {
        let rest = rows.drop_last();
        let n = rows.len() - 1;
        assert forall|i: int| 0 <= i < rest.len() && #[trigger] rest[i] == row implies mask[i] == counts by {
            assert(rows[i] == row);
        }
        lemma_masked_count(rest, mask, row, counts);
        vstd::seq_lib::to_multiset_build(rest, rows.last());
        assert(rest.push(rows.last()) =~= rows);
        assert(rows[n] == rows.last());
    }
}

proof fn lemma_untouched_file(m: MergeModel, file: Seq<BatchModel>, row: Row)
    requires
        m.keys.len() > 0,
        forall|b: int| 0 <= b < file.len() ==> in_columns(m.keys, #[trigger] file[b]),
    ensures
        m.untouched_in(file).count(row) == if has_key_of_source(m.source, row, m.keys) {
            0
        } else {
            rows_of(file).count(row)
        },
    decreases file.len(),
{
    if file.len() > 0 {
        let rest = file.drop_last();
        let last = file[file.len() - 1];
        assert forall|b: int| 0 <= b < rest.len() implies in_columns(m.keys, #[trigger] rest[b]) by {
            assert(rest[b] == file[b]);
        }
        lemma_untouched_file(m, rest, row);
        let rows = last.all_rows();
        let counts = !has_key_of_source(m.source, row, m.keys);
        lemma_merge_masks(m, last);
        assert forall|i: int| 0 <= i < rows.len() && #[trigger] rows[i] == row implies m.unmatched(last)[i]
            == counts by {
            assert(rows[i] == last.row(i));
            lemma_key_of_source(m.source, last, m.keys, i);
        }
        lemma_masked_count(rows, m.unmatched(last), row, counts);
    }
}

/// The rows of files that match nothing are those without the key of a source row.
pub proof fn lemma_untouched_table(m: MergeModel, files: Seq<Seq<BatchModel>>, row: Row)
    requires
        m.keys.len() > 0,
        forall|f: int, b: int|
            0 <= f < files.len() && 0 <= b < files[f].len() ==> in_columns(m.keys, #[trigger] files[f][b]),
    ensures
        m.untouched_rows(files).count(row) == if has_key_of_source(m.source, row, m.keys) {
            0
        } else {
            table_rows(files).count(row)
        },
    decreases files.len(),
{
    if files.len() > 0 {
        let rest = files.drop_last();
        let n = files.len() - 1;
        assert forall|f: int, b: int| 0 <= f < rest.len() && 0 <= b < rest[f].len() implies in_columns(
            m.keys,
            #[trigger] rest[f][b],
        ) by {
            assert(rest[f][b] == files[f][b]);
        }
        lemma_untouched_table(m, rest, row);
        assert forall|b: int| 0 <= b < files[n].len() implies in_columns(m.keys, #[trigger] files[n][b]) by {}
        lemma_untouched_file(m, files[n], row);
    }
}

/// Where no source row is matched twice, the merge leaves none in the table twice.
pub proof fn lemma_matches_once(m: MergeModel, files: Seq<Seq<BatchModel>>)
    requires
        matched_at_most_once(m.source, files, m.keys),
    ensures
        m.matches_once(files),
{
    assert forall|f: int, b: int| 0 <= f < files.len() && 0 <= b < files[f].len() implies m.settles(
        #[trigger] files[f][b],
    ) by {
        let target = files[f][b];
        assert forall|t: int, u: int|
            0 <= t < u < target.rows && #[trigger] m.match_of(target, t) is Some && #[trigger] m.match_of(
                target,
                u,
            ) == m.match_of(target, t) implies m.replaced(target)[t] && m.replaced(target)[u] by {
            let s = m.match_of(target, t)->0;
            lemma_is_match(m.source, target, m.keys, t);
            lemma_is_match(m.source, target, m.keys, u);
            assert(is_match(m.source, s, files[f][b], t, m.keys));
            assert(is_match(m.source, s, files[f][b], u, m.keys));
        }
    }
    assert forall|f: int, b: int, c: int, s: int|
        0 <= f < files.len() && 0 <= b < c < files[f].len() && 0 <= s < m.source.rows implies !(
    #[trigger] m.hit(files[f][b])[s] && #[trigger] m.hit(files[f][c])[s]) by {
        if m.hit(files[f][b])[s] && m.hit(files[f][c])[s] {
            lemma_is_matched_by(m.source, files[f][b], m.keys, s);
            lemma_is_matched_by(m.source, files[f][c], m.keys, s);
            let t = choose|t: int| #[trigger] is_match(m.source, s, files[f][b], t, m.keys);
            let u = choose|u: int| #[trigger] is_match(m.source, s, files[f][c], u, m.keys);
            assert(is_match(m.source, s, files[f][b], t, m.keys));
            assert(is_match(m.source, s, files[f][c], u, m.keys));
        }
    }
    assert forall|f: int, g: int, s: int|
        0 <= f < g < files.len() && 0 <= s < m.source.rows implies !(#[trigger] m.hit_in(files[f], s)
        && #[trigger] m.hit_in(files[g], s)) by {
        if m.hit_in(files[f], s) && m.hit_in(files[g], s) {
            let b = choose|b: int| 0 <= b < files[f].len() && m.hit(#[trigger] files[f][b])[s];
            let c = choose|c: int| 0 <= c < files[g].len() && m.hit(#[trigger] files[g][c])[s];
            lemma_is_matched_by(m.source, files[f][b], m.keys, s);
            lemma_is_matched_by(m.source, files[g][c], m.keys, s);
            let t = choose|t: int| #[trigger] is_match(m.source, s, files[f][b], t, m.keys);
            let u = choose|u: int| #[trigger] is_match(m.source, s, files[g][c], u, m.keys);
            assert(is_match(m.source, s, files[f][b], t, m.keys));
            assert(is_match(m.source, s, files[g][c], u, m.keys));
        }
    }
}

}
