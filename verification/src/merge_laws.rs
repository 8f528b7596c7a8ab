//! What a merge keeps, replaces and inserts, said over the values of the source and of the target.
use vstd::prelude::*;
use vstd::seq_lib::lemma_flatten_concat;

use crate::cow_executor::{lemma_count_true, part, MergeModel};
use crate::key_laws::{agree_in, lemma_agree_in};
use crate::laws::lemma_table_flags;
use crate::matching_laws::{has_match, is_match, is_matched_by, lemma_is_match, lemma_is_matched_by};
use crate::model::{count_true, selected, BatchModel, Row};
use crate::run_laws::replaced_rows;

verus! {

/// Source row `s` takes the place of row `t` of the target batch: the row matches it, and differs
/// from it in a column that is compared, or is replaced in any case.
pub open spec fn takes_the_place_of(
    source: BatchModel,
    s: int,
    target: BatchModel,
    t: int,
    keys: Seq<usize>,
    non_keys: Seq<usize>,
    skip_unchanged: bool,
) -> bool {
    &&& is_match(source, s, target, t, keys)
    &&& !skip_unchanged || !agree_in(source, s, target, t, non_keys)
}

/// A source row takes the place of row `t` of the target batch.
pub open spec fn is_replaced(
    source: BatchModel,
    target: BatchModel,
    t: int,
    keys: Seq<usize>,
    non_keys: Seq<usize>,
    skip_unchanged: bool,
) -> bool {
    exists|s: int| #[trigger]
        takes_the_place_of(source, s, target, t, keys, non_keys, skip_unchanged)
}

/// Source row `s` takes the place of a row of the target batch.
pub open spec fn replaces_any(
    source: BatchModel,
    s: int,
    target: BatchModel,
    keys: Seq<usize>,
    non_keys: Seq<usize>,
    skip_unchanged: bool,
) -> bool {
    exists|t: int| #[trigger]
        takes_the_place_of(source, s, target, t, keys, non_keys, skip_unchanged)
}

/// The numbers of the rows that pass the test, in order.
pub open spec fn numbers_of(rows: nat, test: spec_fn(int) -> bool) -> Seq<int> {
    Seq::new(rows, |i: int| i).filter(test)
}

/// The rows of the batch that pass the test, in order.
pub open spec fn rows_passing(batch: BatchModel, test: spec_fn(int) -> bool) -> Seq<Row> {
    numbers_of(batch.rows, test).map_values(|i: int| batch.row(i))
}

/// What a target batch becomes in a rewritten file: its matched rows that no source row takes the
/// place of, the source rows that take the place of the others, and its rows that match nothing, each
/// in order.
pub open spec fn rewritten_rows_of(
    source: BatchModel,
    target: BatchModel,
    keys: Seq<usize>,
    non_keys: Seq<usize>,
    skip_unchanged: bool,
) -> Seq<Row> {
    rows_passing(
        target,
        |t: int|
            has_match(source, target, t, keys) && !is_replaced(
                source,
                target,
                t,
                keys,
                non_keys,
                skip_unchanged,
            ),
    ) + rows_passing(
        source,
        |s: int| replaces_any(source, s, target, keys, non_keys, skip_unchanged),
    ) + rows_passing(target, |t: int| !has_match(source, target, t, keys))
}

/// A row of some file matches source row `s`.
pub open spec fn is_matched_anywhere(
    source: BatchModel,
    s: int,
    files: Seq<Seq<BatchModel>>,
    keys: Seq<usize>,
) -> bool {
    exists|f: int, b: int|
        0 <= f < files.len() && 0 <= b < files[f].len() && is_matched_by(
            source,
            s,
            #[trigger] files[f][b],
            keys,
        )
}

/// The positions at which a mask is true are those that pass the test.
pub proof fn lemma_numbers(mask: Seq<bool>, test: spec_fn(int) -> bool)
    requires
        forall|i: int| 0 <= i < mask.len() ==> #[trigger] mask[i] == test(i),
    ensures
        selected(mask) == numbers_of(mask.len(), test),
        count_true(mask) == numbers_of(mask.len(), test).len(),
    decreases mask.len(),
{
    reveal(Seq::filter);
    let all = Seq::new(mask.len(), |i: int| i);
    if mask.len() > 0 {
        let rest = mask.drop_last();
        assert forall|i: int| 0 <= i < rest.len() implies #[trigger] rest[i] == test(i) by {
            assert(rest[i] == mask[i]);
        }
        lemma_numbers(rest, test);
        assert(all.drop_last() =~= Seq::new(rest.len(), |i: int| i));
        assert(mask[mask.len() - 1] == test(mask.len() - 1));
    } else {
        assert(all =~= Seq::empty());
    }
}

/// The rows of some batches, one after the other.
pub open spec fn rows_in_order(batches: Seq<BatchModel>) -> Seq<Row> {
    batches.map_values(|b: BatchModel| b.all_rows()).flatten()
}

proof fn lemma_rows_in_order_concat(a: Seq<BatchModel>, b: Seq<BatchModel>)
    ensures
        rows_in_order(a + b) == rows_in_order(a) + rows_in_order(b),
{
    let f = |b: BatchModel| b.all_rows();
    assert((a + b).map_values(f) =~= a.map_values(f) + b.map_values(f));
    lemma_flatten_concat(a.map_values(f), b.map_values(f));
}

proof fn lemma_rows_in_order_one(batch: BatchModel)
    ensures
        rows_in_order(seq![batch]) == batch.all_rows(),
{
    let f = |b: BatchModel| b.all_rows();
    assert(seq![batch].map_values(f) =~= seq![batch.all_rows()]);
    seq![batch.all_rows()].lemma_flatten_one_element();
}

/// The part of a batch that a mask selects has the rows that pass the test.
pub proof fn lemma_part_passing(batch: BatchModel, mask: Seq<bool>, test: spec_fn(int) -> bool)
    requires
        mask.len() == batch.rows,
        forall|i: int| 0 <= i < mask.len() ==> #[trigger] mask[i] == test(i),
    ensures
        rows_in_order(part(batch, mask)) == rows_passing(batch, test),
        count_true(mask) > 0 ==> batch.select(selected(mask)).all_rows() == rows_passing(batch, test),
{
    lemma_numbers(mask, test);
    let rows = selected(mask);
    let chosen = batch.select(rows);
    assert(chosen.all_rows() =~= rows_passing(batch, test)) by {
        assert forall|j: int| 0 <= j < rows.len() implies chosen.all_rows()[j] == rows_passing(batch, test)[j] by {
            assert(chosen.row(j) =~= batch.row(rows[j]));
        }
    }
    if count_true(mask) == 0 {
        assert(part(batch, mask) =~= Seq::empty());
        assert(rows_in_order(part(batch, mask)) =~= Seq::empty()) by {
            assert(part(batch, mask).map_values(|b: BatchModel| b.all_rows()) =~= Seq::empty());
        }
        assert(rows_passing(batch, test) =~= Seq::empty());
    } else {
        lemma_rows_in_order_one(chosen);
    }
}

/// What the merge calls replaced, kept and unmatched.
pub proof fn lemma_merge_masks(m: MergeModel, target: BatchModel)
    ensures
        forall|t: int|
            0 <= t < target.rows ==> #[trigger] m.replaced(target)[t] == is_replaced(
                m.source,
                target,
                t,
                m.keys,
                m.non_keys,
                m.skip_unchanged,
            ),
        forall|t: int|
            0 <= t < target.rows ==> #[trigger] m.kept(target)[t] == (has_match(m.source, target, t, m.keys)
                && !is_replaced(m.source, target, t, m.keys, m.non_keys, m.skip_unchanged)),
        forall|t: int|
            0 <= t < target.rows ==> #[trigger] m.unmatched(target)[t] == !has_match(
                m.source,
                target,
                t,
                m.keys,
            ),
        forall|s: int|
            0 <= s < m.source.rows ==> #[trigger] m.updated(target)[s] == replaces_any(
                m.source,
                s,
                target,
                m.keys,
                m.non_keys,
                m.skip_unchanged,
            ),
{
    let source = m.source;
    assert forall|s: int, t: int| 0 <= t < target.rows implies #[trigger] takes_the_place_of(
        source,
        s,
        target,
        t,
        m.keys,
        m.non_keys,
        m.skip_unchanged,
    ) == (m.match_of(target, t) == Some(s) && m.replaces(target, s, t)) by {
        lemma_is_match(source, target, m.keys, t);
        lemma_agree_in(source, s, target, t, m.non_keys);
    }
    assert forall|t: int| 0 <= t < target.rows implies #[trigger] m.replaced(target)[t] == is_replaced(
        source,
        target,
        t,
        m.keys,
        m.non_keys,
        m.skip_unchanged,
    ) by {
        if m.replaced(target)[t] {
            let s = m.match_of(target, t)->0;
            assert(takes_the_place_of(source, s, target, t, m.keys, m.non_keys, m.skip_unchanged));
        }
    }
    assert forall|t: int| 0 <= t < target.rows implies #[trigger] m.kept(target)[t] == (has_match(
        source,
        target,
        t,
        m.keys,
    ) && !is_replaced(source, target, t, m.keys, m.non_keys, m.skip_unchanged)) && m.unmatched(target)[t]
        == !has_match(source, target, t, m.keys) by {
        lemma_is_match(source, target, m.keys, t);
        assert(m.replaced(target)[t] == is_replaced(source, target, t, m.keys, m.non_keys, m.skip_unchanged));
    }
    assert forall|t: int| 0 <= t < target.rows implies #[trigger] m.unmatched(target)[t] == !has_match(
        source,
        target,
        t,
        m.keys,
    ) by {
        lemma_is_match(source, target, m.keys, t);
    }
    assert forall|s: int| 0 <= s < source.rows implies #[trigger] m.updated(target)[s] == replaces_any(
        source,
        s,
        target,
        m.keys,
        m.non_keys,
        m.skip_unchanged,
    ) by {
        if m.updates(target, s) {
            let t = choose|t: int|
                0 <= t < target.rows && #[trigger] m.match_of(target, t) == Some(s) && m.replaces(target, s, t);
            assert(takes_the_place_of(source, s, target, t, m.keys, m.non_keys, m.skip_unchanged));
        }
        if replaces_any(source, s, target, m.keys, m.non_keys, m.skip_unchanged) {
            let t = choose|t: int| #[trigger]
                takes_the_place_of(source, s, target, t, m.keys, m.non_keys, m.skip_unchanged);
            assert(0 <= t < target.rows);
            assert(m.match_of(target, t) == Some(s));
        }
    }
}

/// What a target batch becomes in a rewritten file.
pub proof fn lemma_merged(m: MergeModel, target: BatchModel)
    ensures
        rows_in_order(m.merged(target)) == rewritten_rows_of(
            m.source,
            target,
            m.keys,
            m.non_keys,
            m.skip_unchanged,
        ),
        count_true(m.replaced(target)) == numbers_of(
            target.rows,
            |t: int| is_replaced(m.source, target, t, m.keys, m.non_keys, m.skip_unchanged),
        ).len(),
{
    let kept = |t: int|
        has_match(m.source, target, t, m.keys) && !is_replaced(
            m.source,
            target,
            t,
            m.keys,
            m.non_keys,
            m.skip_unchanged,
        );
    let updated = |s: int| replaces_any(m.source, s, target, m.keys, m.non_keys, m.skip_unchanged);
    let unmatched = |t: int| !has_match(m.source, target, t, m.keys);
    lemma_merge_masks(m, target);
    lemma_part_passing(target, m.kept(target), kept);
    lemma_part_passing(m.source, m.updated(target), updated);
    lemma_part_passing(target, m.unmatched(target), unmatched);
    lemma_numbers(
        m.replaced(target),
        |t: int| is_replaced(m.source, target, t, m.keys, m.non_keys, m.skip_unchanged),
    );
    lemma_count_true(m.kept(target));
    lemma_count_true(m.replaced(target));
    lemma_count_true(m.updated(target));
    if count_true(m.kept(target)) + count_true(m.replaced(target)) == 0 {
        lemma_rows_in_order_one(target);
        assert forall|t: int| 0 <= t < target.rows implies #[trigger] m.unmatched(target)[t] by {
            assert(!m.kept(target)[t]);
            assert(!m.replaced(target)[t]);
        }
        assert(count_true(m.updated(target)) == 0) by {
            if count_true(m.updated(target)) > 0 {
                let s = choose|s: int| 0 <= s < m.updated(target).len() && #[trigger] m.updated(target)[s];
                let t = choose|t: int|
                    0 <= t < target.rows && #[trigger] m.match_of(target, t) == Some(s) && m.replaces(
                        target,
                        s,
                        t,
                    );
                assert(m.replaced(target)[t]);
            }
        }
        lemma_numbers(m.kept(target), kept);
        lemma_numbers(m.updated(target), updated);
        assert(rows_passing(target, kept) =~= Seq::empty());
        assert(rows_passing(m.source, updated) =~= Seq::empty());
        assert(rows_passing(target, unmatched) =~= target.all_rows()) by {
            let whole = Seq::new(target.rows, |t: int| true);
            assert(m.unmatched(target) =~= whole);
            lemma_whole(target.rows);
            lemma_numbers(m.unmatched(target), unmatched);
        }
        assert(rows_in_order(m.merged(target)) =~= rewritten_rows_of(
            m.source,
            target,
            m.keys,
            m.non_keys,
            m.skip_unchanged,
        ));
    } else {
        let a = part(target, m.kept(target));
        let b = part(m.source, m.updated(target));
        let c = part(target, m.unmatched(target));
        lemma_rows_in_order_concat(a, b);
        lemma_rows_in_order_concat(a + b, c);
    }
}

proof fn lemma_whole(n: nat)
    ensures
        selected(Seq::new(n, |t: int| true)) == Seq::new(n, |t: int| t),
    decreases n,
{
    let all = Seq::new(n, |t: int| true);
    if n > 0 {
        let p = (n - 1) as nat;
        lemma_whole(p);
        assert(all.drop_last() =~= Seq::new(p, |t: int| true));
        assert(selected(all) =~= Seq::new(n, |t: int| t));
    } else {
        assert(selected(all) =~= Seq::new(n, |t: int| t));
    }
}

/// The content of a rewritten file, and the number of its rows that are replaced.
pub proof fn lemma_merged_file(m: MergeModel, file: Seq<BatchModel>)
    ensures
        rows_in_order(m.merged_file(file)) == file.map_values(
            |b: BatchModel| rewritten_rows_of(m.source, b, m.keys, m.non_keys, m.skip_unchanged),
        ).flatten(),
        m.updates_in(file) == file.map_values(
            |b: BatchModel|
                numbers_of(
                    b.rows,
                    |t: int| is_replaced(m.source, b, t, m.keys, m.non_keys, m.skip_unchanged),
                ),
        ).flatten().len(),
        m.updates_in(file) > 0 <==> exists|b: int, t: int|
            0 <= b < file.len() && 0 <= t < file[b].rows && #[trigger] is_replaced(
                m.source,
                file[b],
                t,
                m.keys,
                m.non_keys,
                m.skip_unchanged,
            ),
    decreases file.len(),
{
    let f = |b: BatchModel| rewritten_rows_of(m.source, b, m.keys, m.non_keys, m.skip_unchanged);
    let g = |b: BatchModel|
        numbers_of(
            b.rows,
            |t: int| is_replaced(m.source, b, t, m.keys, m.non_keys, m.skip_unchanged),
        );
    if file.len() == 0 {
        assert(file.map_values(f) =~= Seq::empty());
        assert(file.map_values(g) =~= Seq::empty());
        assert(m.merged_file(file).map_values(|b: BatchModel| b.all_rows()) =~= Seq::empty());
    } else {
        let rest = file.drop_last();
        let n = file.len() - 1;
        let last = file[n];
        lemma_merged_file(m, rest);
        lemma_merged(m, last);
        lemma_merge_masks(m, last);
        lemma_count_true(m.replaced(last));
        lemma_rows_in_order_concat(m.merged_file(rest), m.merged(last));
        assert(file.map_values(f) =~= rest.map_values(f).push(f(last)));
        assert(file.map_values(g) =~= rest.map_values(g).push(g(last)));
        rest.map_values(f).lemma_flatten_push(f(last));
        rest.map_values(g).lemma_flatten_push(g(last));
        if m.updates_in(file) > 0 {
            if m.updates_in(rest) > 0 {
                let (b, t) = choose|b: int, t: int|
                    0 <= b < rest.len() && 0 <= t < rest[b].rows && #[trigger] is_replaced(
                        m.source,
                        rest[b],
                        t,
                        m.keys,
                        m.non_keys,
                        m.skip_unchanged,
                    );
                assert(is_replaced(m.source, file[b], t, m.keys, m.non_keys, m.skip_unchanged));
            } else {
                let t = choose|t: int| 0 <= t < m.replaced(last).len() && #[trigger] m.replaced(last)[t];
                assert(is_replaced(m.source, file[n], t, m.keys, m.non_keys, m.skip_unchanged));
            }
        }
        if exists|b: int, t: int|
            0 <= b < file.len() && 0 <= t < file[b].rows && #[trigger] is_replaced(
                m.source,
                file[b],
                t,
                m.keys,
                m.non_keys,
                m.skip_unchanged,
            ) {
            let (b, t) = choose|b: int, t: int|
                0 <= b < file.len() && 0 <= t < file[b].rows && #[trigger] is_replaced(
                    m.source,
                    file[b],
                    t,
                    m.keys,
                    m.non_keys,
                    m.skip_unchanged,
                );
            if b < n {
                assert(is_replaced(m.source, rest[b], t, m.keys, m.non_keys, m.skip_unchanged));
            } else {
                assert(m.replaced(last)[t]);
            }
        }
    }
}

/// The number of rows that are replaced in some files.
pub proof fn lemma_replaced_rows(m: MergeModel, files: Seq<Seq<BatchModel>>)
    ensures
        replaced_rows(m, files) == files.flatten().map_values(
            |b: BatchModel|
                numbers_of(
                    b.rows,
                    |t: int| is_replaced(m.source, b, t, m.keys, m.non_keys, m.skip_unchanged),
                ),
        ).flatten().len(),
    decreases files.len(),
{
    let g = |b: BatchModel|
        numbers_of(
            b.rows,
            |t: int| is_replaced(m.source, b, t, m.keys, m.non_keys, m.skip_unchanged),
        );
    if files.len() == 0 {
        assert(files.flatten().map_values(g) =~= Seq::empty());
    } else {
        let rest = files.drop_last();
        let last = files.last();
        lemma_replaced_rows(m, rest);
        lemma_merged_file(m, last);
        rest.lemma_flatten_push(last);
        assert(rest.push(last) =~= files);
        assert(files.flatten() == rest.flatten() + last);
        assert(files.flatten().map_values(g) =~= rest.flatten().map_values(g) + last.map_values(g));
        lemma_flatten_concat(rest.flatten().map_values(g), last.map_values(g));
    }
}

/// The source rows that count as matched are those that a row of some file matches.
pub proof fn lemma_matched_anywhere(m: MergeModel, files: Seq<Seq<BatchModel>>)
    ensures
        m.flags_of(files).len() == m.source.rows,
        forall|s: int|
            0 <= s < m.source.rows ==> #[trigger] m.flags_of(files)[s] == is_matched_anywhere(
                m.source,
                s,
                files,
                m.keys,
            ),
{
    lemma_table_flags(m, files);
    assert forall|s: int| 0 <= s < m.source.rows implies #[trigger] m.flags_of(files)[s]
        == is_matched_anywhere(m.source, s, files, m.keys) by {
        assert(m.flags_of(files)[s] == m.hit_anywhere(files, s));
        if m.hit_anywhere(files, s) {
            let f = choose|f: int| 0 <= f < files.len() && m.hit_in(#[trigger] files[f], s);
            let b = choose|b: int| 0 <= b < files[f].len() && m.hit(#[trigger] files[f][b])[s];
            lemma_is_matched_by(m.source, files[f][b], m.keys, s);
            assert(is_matched_by(m.source, s, files[f][b], m.keys));
        }
        if is_matched_anywhere(m.source, s, files, m.keys) {
            let (f, b) = choose|f: int, b: int|
                0 <= f < files.len() && 0 <= b < files[f].len() && is_matched_by(
                    m.source,
                    s,
                    #[trigger] files[f][b],
                    m.keys,
                );
            lemma_is_matched_by(m.source, files[f][b], m.keys, s);
            assert(m.hit(files[f][b])[s]);
            assert(m.hit_in(files[f], s));
        }
    }
}

}
