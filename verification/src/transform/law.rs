//! What the transformations keep: how many cases come out, and which.
use vstd::prelude::*;

use crate::arith::NumOp;
use crate::batch;
use crate::batch::ColumnView;
use crate::dataset;
use crate::dataset::DatasetView;
use crate::number::Number;
use crate::text;
use crate::text_law;
use crate::transform::aggregate;
use crate::transform::aggregate::AggSpecView;
use crate::transform::files;
use crate::transform::join;
use crate::transform::long;
use crate::transform::long::TransposeView;
use crate::transform::rows;
use crate::transform::sort;
use crate::transform::sort::SortKeyView;
use crate::value::ValueView;
use crate::variable::VariableView;

verus! {

/// A table has as many cases as its columns have entries.
pub proof fn lemma_table_cases(vars: Seq<VariableView>, columns: Seq<ColumnView>, out: DatasetView)
    requires
        rows::table_of(vars, columns) == Ok::<DatasetView, Seq<char>>(out),
    ensures
        columns.len() > 0,
        columns.len() == vars.len(),
        columns[0].cells.len() <= usize::MAX ==> out.n_cases() == columns[0].cells.len(),
        forall|i: int|
            0 <= i < columns.len() ==> (#[trigger] columns[i]).cells.len()
                == columns[0].cells.len(),
        out.variables == vars,
{
    let b = out.batches[0];
    assert(out.batches =~= seq![b]);
    assert(out.batches.drop_last() =~= Seq::empty());
    assert(dataset::rows_in(out.batches.drop_last()) == 0);
}

/// What was gathered is each of the results.
pub proof fn lemma_gathered<T>(parts: Seq<Option<Result<T, Seq<char>>>>, all: Seq<T>)
    requires
        rows::gathered(parts) == Some(Ok::<Seq<T>, Seq<char>>(all)),
    ensures
        all.len() == parts.len(),
        forall|i: int|
            0 <= i < parts.len() ==> #[trigger] parts[i] == Some(Ok::<T, Seq<char>>(all[i])),
    decreases parts.len(),
{
    if parts.len() > 0 {
        let before = rows::gathered(parts.drop_last())->0->Ok_0;
        lemma_gathered(parts.drop_last(), before);
        assert forall|i: int| 0 <= i < parts.len() implies #[trigger] parts[i] == Some(
            Ok::<T, Seq<char>>(all[i]),
        ) by {
            if i < parts.len() - 1 {
                assert(parts.drop_last()[i] == parts[i]);
            }
        }
    }
}

/// A part of a file has an entry for each of its cases.
pub proof fn lemma_file_part(ds: DatasetView, var: VariableView)
    requires
        ds.wf(),
    ensures
        files::file_part(ds, var) matches Some(Ok(c)) ==> c.cells.len() == ds.n_cases(),
{
    if let Some(idx) = ds.index_of(var.name) {
        if rows::covered(ds, idx as int) {
            rows::lemma_concatenated_len(ds, idx as int);
        }
    }
}

proof fn lemma_joined_parts(dss: Seq<DatasetView>, parts: Seq<ColumnView>)
    requires
        dss.len() == parts.len(),
        forall|d: int| 0 <= d < dss.len() ==> (#[trigger] parts[d]).cells.len() == dss[d].n_cases(),
    ensures
        batch::joined_cells(parts).len() == files::total_cases(dss),
    decreases dss.len(),
{
    if dss.len() > 0 {
        assert forall|d: int| 0 <= d < dss.drop_last().len() implies (
        #[trigger] parts.drop_last()[d]).cells.len() == dss.drop_last()[d].n_cases() by {
            assert(parts[d].cells.len() == dss[d].n_cases());
        }
        lemma_joined_parts(dss.drop_last(), parts.drop_last());
        assert(parts[parts.len() - 1].cells.len() == dss[dss.len() - 1].n_cases());
    }
}

/// ADD FILES keeps all cases: the result has as many as the files together.
pub proof fn law_added_cases(dss: Seq<DatasetView>, out: DatasetView)
    requires
        dss.len() > 0,
        forall|d: int| 0 <= d < dss.len() ==> (#[trigger] dss[d]).wf(),
        files::total_cases(dss) <= usize::MAX,
        files::added(dss) == Some(Ok::<DatasetView, Seq<char>>(out)),
    ensures
        out.n_cases() == files::total_cases(dss),
        out.variables == files::union_variables(dss),
{
    let columns = files::file_columns(dss);
    let all = rows::gathered(columns)->0->Ok_0;
    lemma_gathered(columns, all);
    lemma_table_cases(files::union_variables(dss), all, out);
    let var = files::variable_at(dss, files::union(dss)[0]);
    assert(columns[0] == Some(Ok::<ColumnView, Seq<char>>(all[0])));
    let parts = files::file_parts(dss, var);
    let found = rows::gathered(parts)->0->Ok_0;
    lemma_gathered(parts, found);
    assert forall|d: int| 0 <= d < dss.len() implies (#[trigger] found[d]).cells.len()
        == dss[d].n_cases() by {
        assert(parts[d] == Some(Ok::<ColumnView, Seq<char>>(found[d])));
        assert(dss[d].wf());
        lemma_file_part(dss[d], var);
    }
    lemma_joined_parts(dss, found);
}

proof fn lemma_most_cases(dss: Seq<DatasetView>, d: int)
    requires
        0 <= d < dss.len(),
    ensures
        dss[d].n_cases() <= files::most_cases(dss),
    decreases dss.len(),
{
    if d < dss.len() - 1 {
        lemma_most_cases(dss.drop_last(), d);
        assert(dss.drop_last()[d] == dss[d]);
    }
}

/// MATCH FILES without keys has as many cases as the longest file.
pub proof fn law_matched_cases(dss: Seq<DatasetView>, out: DatasetView)
    requires
        dss.len() > 0,
        dss.len() <= usize::MAX,
        forall|d: int|
            0 <= d < dss.len() ==> (#[trigger] dss[d]).wf() && dss[d].variables.len() <= usize::MAX,
        files::most_cases(dss) <= usize::MAX,
        files::matched(dss) == Some(Ok::<DatasetView, Seq<char>>(out)),
    ensures
        out.n_cases() == files::most_cases(dss),
        out.variables == files::union_variables(dss),
{
    let columns = files::padded_columns(dss);
    let all = rows::gathered(columns)->0->Ok_0;
    lemma_gathered(columns, all);
    lemma_table_cases(files::union_variables(dss), all, out);
    files::law_union(dss, dss.len() as int, 0);
    let p = files::union(dss)[0];
    assert(p.0 < dss.len());
    let ds = dss[p.0 as int];
    assert(ds.wf());
    lemma_most_cases(dss, p.0 as int);
    assert(columns[0] == Some(Ok::<ColumnView, Seq<char>>(all[0])));
    rows::lemma_concatenated_len(ds, p.1 as int);
    let c = batch::concatenated(rows::columns_at(ds, p.1 as int))->Ok_0;
    if ds.n_cases() < files::most_cases(dss) {
        let pad = batch::null_column(
            ds.variables[p.1 as int].var_type,
            (files::most_cases(dss) - ds.n_cases()) as nat,
        );
        let two = seq![c, pad];
        assert(two.drop_last() =~= seq![c]);
        assert(seq![c].drop_last() =~= Seq::empty());
        assert(batch::joined_cells(seq![c].drop_last()).len() == 0);
        assert(batch::joined_cells(two.drop_last()).len() == c.cells.len());
        assert(batch::joined_cells(two).len() == c.cells.len() + pad.cells.len());
    }
}

/// MATCH FILES by key keeps the cases of the primary file, one for one.
pub proof fn law_joined_cases(
    primary: DatasetView,
    lookup: DatasetView,
    by: Seq<Seq<char>>,
    out: DatasetView,
)
    requires
        primary.wf(),
        primary.batches.len() > 0,
        primary.batches.len() <= usize::MAX,
        primary.n_cases() <= usize::MAX,
        join::joined(primary, lookup, by) == Some(Ok::<DatasetView, Seq<char>>(out)),
    ensures
        out.n_cases() == primary.n_cases(),
        out.variables == join::joined_variables(primary, lookup),
{
    let at = join::partners(primary, lookup, by);
    let idxs = join::added_variables(primary, lookup);
    let own = rows::all_columns(primary, primary.variables.len() as int)->0->Ok_0;
    let columns = join::joined_columns(own, lookup, idxs, at);
    lemma_table_cases(join::joined_variables(primary, lookup), columns, out);
    rows::lemma_positions(primary, primary.batches.len() as int);
    assert(primary.batches.take(primary.batches.len() as int) =~= primary.batches);
    rows::lemma_all_columns(primary, primary.variables.len() as int);
    if own.len() > 0 {
        lemma_all_covered(primary, primary.variables.len() as int);
        rows::lemma_concatenated_len(primary, 0);
        assert(columns[0] == own[0]);
    } else {
        assert(columns[0] == join::aligned(lookup, idxs[0] as int, at));
    }
}

proof fn lemma_all_covered(ds: DatasetView, n: int)
    requires
        0 < n,
        rows::all_columns(ds, n) matches Some(Ok(_)),
    ensures
        rows::covered(ds, 0),
    decreases n,
{
    if n > 1 {
        lemma_all_covered(ds, n - 1);
    } else {
        assert(rows::all_columns(ds, 0) matches Some(Ok(_)));
    }
}

/// VARSTOCASES makes of each case as many as there are sources.
pub proof fn law_long_cases(
    ds: DatasetView,
    specs: Seq<TransposeView>,
    index_var: Option<Seq<char>>,
    keep: Seq<Seq<char>>,
    out: DatasetView,
)
    requires
        ds.batches.len() > 0,
        ds.batches.len() <= usize::MAX,
        specs.len() > 0,
        long::long_fits(ds, specs),
        long::lengthened(ds, specs, index_var, keep) == Some(Ok::<DatasetView, Seq<char>>(out)),
    ensures
        out.n_cases() == ds.n_cases() * specs[0].source_vars.len(),
{
    let n = specs[0].source_vars.len();
    let at = rows::positions(ds);
    let parts = long::long_parts(ds, specs, index_var, keep);
    let all = rows::gathered(parts)->0->Ok_0;
    lemma_gathered(parts, all);
    lemma_table_cases(long::part_variables(all), long::part_columns(all), out);
    rows::lemma_positions(ds, ds.batches.len() as int);
    assert(ds.batches.take(ds.batches.len() as int) =~= ds.batches);
    assert(at.len() == ds.n_cases());
    let some = Seq::new(n, |j: int| 0usize);
    long::lemma_long_len(ds, at, some);
    assert(parts[0] == Some(Ok::<(VariableView, ColumnView), Seq<char>>(all[0])));
    assert(long::part_columns(all)[0] == all[0].1);
    if keep.len() > 0 {
        assert(parts[0] == long::kept_part(ds, keep[0], n));
    } else {
        assert(parts[0] == long::new_part(ds, specs[0], n));
        if at.len() == 0 || n == 0 {
            assert(at.len() * n == 0) by (nonlinear_arith)
                requires
                    at.len() == 0 || n == 0,
            ;
        } else {
            let idxs = rows::indices_of(ds, specs[0].source_vars.take(n as int));
            long::lemma_long_len(ds, at, idxs);
        }
    }
}

/// AGGREGATE gives one case for each group.
pub proof fn law_aggregated_cases<F: Fn(NumOp) -> Number>(
    ds: DatasetView,
    breaks: Seq<Seq<char>>,
    specs: Seq<AggSpecView>,
    calc: F,
    out: DatasetView,
)
    requires
        ds.batches.len() > 0,
        rows::grouped(ds, rows::indices_of(ds, breaks)).len() <= usize::MAX,
        aggregate::aggregated(ds, breaks, specs, calc) == Ok::<DatasetView, Seq<char>>(out),
    ensures
        out.n_cases() == rows::grouped(ds, rows::indices_of(ds, breaks)).len(),
{
    let idxs = rows::indices_of(ds, breaks);
    lemma_table_cases(
        aggregate::result_variables(ds, idxs, specs),
        aggregate::result_columns(ds, idxs, specs, calc),
        out,
    );
}

/// SORT CASES keeps the number of cases and the variables.
pub proof fn law_sorted_cases(
    ds: DatasetView,
    keys: Seq<SortKeyView>,
    by: Seq<ColumnView>,
    all: Seq<ColumnView>,
    out: DatasetView,
)
    requires
        ds.n_cases() <= usize::MAX,
        sort::is_sorted_form(ds, keys, by, all, out),
    ensures
        out.n_cases() == ds.n_cases(),
        out.variables == ds.variables,
{
    let order = choose|order: Seq<u32>| #[trigger]
        sort::sorts(by, keys, ds.n_cases(), order) && rows::table_of(
            ds.variables,
            sort::all_reordered(all, order),
        ) == Ok::<DatasetView, Seq<char>>(out);
    lemma_table_cases(ds.variables, sort::all_reordered(all, order), out);
}

/// The rows of several groups.
pub open spec fn group_sizes(groups: Seq<Seq<(usize, usize)>>) -> nat
    decreases groups.len(),
{
    if groups.len() == 0 {
        0
    } else {
        group_sizes(groups.drop_last()) + groups.last().len()
    }
}

/// The members of the first `n` different keys.
spec fn member_sizes(
    keys: Seq<Seq<char>>,
    at: Seq<(usize, usize)>,
    different: Seq<Seq<char>>,
    n: int,
) -> nat
    decreases n,
{
    if n <= 0 {
        0
    } else {
        member_sizes(keys, at, different, n - 1) + rows::members(keys, at, different[n - 1]).len()
    }
}

/// One more row makes the group of its key larger by one, and no other.
proof fn lemma_member_sizes(
    keys: Seq<Seq<char>>,
    at: Seq<(usize, usize)>,
    different: Seq<Seq<char>>,
    n: int,
)
    requires
        keys.len() > 0,
        0 <= n <= different.len(),
        different.no_duplicates(),
    ensures
        member_sizes(keys, at, different, n) == member_sizes(keys.drop_last(), at, different, n)
            + if exists|i: int| 0 <= i < n && (#[trigger] different[i]) == keys.last() {
            1nat
        } else {
            0nat
        },
    decreases n,
{
    if n > 0 {
        lemma_member_sizes(keys, at, different, n - 1);
        if different[n - 1] == keys.last() {
            assert forall|i: int| 0 <= i < n - 1 implies (#[trigger] different[i])
                != keys.last() by {
                assert(different[i] != different[n - 1]);
            }
        }
    }
}

proof fn lemma_sizes_of_prefix(
    keys: Seq<Seq<char>>,
    at: Seq<(usize, usize)>,
    a: Seq<Seq<char>>,
    b: Seq<Seq<char>>,
    n: int,
)
    requires
        0 <= n <= a.len(),
        a.len() <= b.len(),
        forall|i: int| 0 <= i < a.len() ==> (#[trigger] a[i]) == b[i],
    ensures
        member_sizes(keys, at, a, n) == member_sizes(keys, at, b, n),
    decreases n,
{
    if n > 0 {
        lemma_sizes_of_prefix(keys, at, a, b, n - 1);
        assert(a[n - 1] == b[n - 1]);
    }
}

proof fn lemma_partition(keys: Seq<Seq<char>>, at: Seq<(usize, usize)>)
    requires
        keys.len() <= at.len(),
    ensures
        member_sizes(keys, at, rows::distinct(keys), rows::distinct(keys).len() as int)
            == keys.len(),
    decreases keys.len(),
{
    if keys.len() > 0 {
        let fewer = keys.drop_last();
        let before = rows::distinct(fewer);
        let all = rows::distinct(keys);
        lemma_partition(fewer, at);
        rows::law_distinct(keys);
        rows::law_distinct(fewer);
        lemma_member_sizes(keys, at, all, all.len() as int);
        assert(keys.contains(keys[keys.len() - 1]));
        assert(all.contains(keys.last()));
        let i = choose|i: int| 0 <= i < all.len() && all[i] == keys.last();
        assert(all[i] == keys.last());
        if before.contains(keys.last()) {
            assert(all == before);
        } else {
            lemma_sizes_of_prefix(fewer, at, before, all, before.len() as int);
            rows::law_members(fewer, at, keys.last());
            assert(!fewer.contains(keys.last()));
            assert(all[before.len() as int] == keys.last());
        }
    } else {
        assert(rows::distinct(keys) =~= Seq::empty());
    }
}

proof fn lemma_group_sizes(
    keys: Seq<Seq<char>>,
    at: Seq<(usize, usize)>,
    groups: Seq<Seq<(usize, usize)>>,
    n: int,
)
    requires
        0 <= n <= groups.len(),
        groups == rows::groups(keys, at),
    ensures
        group_sizes(groups.take(n)) == member_sizes(keys, at, rows::distinct(keys), n),
    decreases n,
{
    if n > 0 {
        lemma_group_sizes(keys, at, groups, n - 1);
        assert(groups.take(n).drop_last() =~= groups.take(n - 1));
        assert(groups.take(n).last() == groups[n - 1]);
    } else {
        assert(groups.take(0) =~= Seq::empty());
    }
}

/// The groups of a dataset have all its rows, each in one group: their sizes add up
/// to the number of cases.
pub proof fn law_groups_partition(ds: DatasetView, idxs: Seq<usize>)
    requires
        ds.batches.len() <= usize::MAX,
    ensures
        group_sizes(rows::grouped(ds, idxs)) == ds.n_cases(),
{
    let at = rows::positions(ds);
    let keys = rows::row_keys(ds, at, idxs);
    let groups = rows::grouped(ds, idxs);
    rows::lemma_positions(ds, ds.batches.len() as int);
    assert(ds.batches.take(ds.batches.len() as int) =~= ds.batches);
    lemma_partition(keys, at);
    lemma_group_sizes(keys, at, groups, groups.len() as int);
    assert(groups.take(groups.len() as int) =~= groups);
}

/// The values of several variables in a row.
pub open spec fn row_of(ds: DatasetView, p: (usize, usize), idxs: Seq<usize>) -> Seq<ValueView> {
    Seq::new(idxs.len(), |i: int| rows::value_at(ds, p, idxs[i] as int))
}

/// The value is no text that holds a comma.
pub open spec fn no_comma(v: ValueView) -> bool {
    v matches ValueView::String(s) ==> text_law::lacks(s, ',')
}

/// Of the texts in two rows, only those of the last variable with texts may hold a
/// comma.
pub open spec fn comma_in_last(u: Seq<ValueView>, v: Seq<ValueView>) -> bool {
    exists|t: int| 0 <= t <= u.len() && #[trigger] comma_at_most_in(u, v, t)
}

/// No text before the `t`th value holds a comma, and behind it there is no text.
pub open spec fn comma_at_most_in(u: Seq<ValueView>, v: Seq<ValueView>, t: int) -> bool {
    &&& forall|i: int| 0 <= i < t ==> no_comma(#[trigger] u[i]) && no_comma(v[i])
    &&& forall|i: int| t < i < u.len() ==> !((#[trigger] u[i]) is String) && !(v[i] is String)
}

/// The key of rows tells their values apart: two rows, of one dataset or of two,
/// have the same key where they have in each variable the same number, to the bit,
/// the same text, or no value. Where a text holds a comma and another text follows
/// it, rows with different values may have one key.
pub proof fn law_key_tells_values(
    a: DatasetView,
    p: (usize, usize),
    own: Seq<usize>,
    b: DatasetView,
    q: (usize, usize),
    other: Seq<usize>,
)
    requires
        own.len() == other.len(),
        comma_in_last(row_of(a, p, own), row_of(b, q, other)),
    ensures
        rows::row_key(a, p, own) == rows::row_key(b, q, other) <==> row_of(a, p, own) == row_of(
            b,
            q,
            other,
        ),
{
    let (u, v) = (row_of(a, p, own), row_of(b, q, other));
    let t = choose|t: int| 0 <= t <= u.len() && #[trigger] comma_at_most_in(u, v, t);
    lemma_key_of_values(a, p, own);
    lemma_key_of_values(b, q, other);
    if key_of(u) == key_of(v) {
        lemma_keys_differ(u, v, t);
    }
}

/// The key of one variable tells its values apart, whatever texts hold.
pub proof fn law_key_tells_value(
    a: DatasetView,
    p: (usize, usize),
    own: usize,
    b: DatasetView,
    q: (usize, usize),
    other: usize,
)
    ensures
        rows::row_key(a, p, seq![own]) == rows::row_key(b, q, seq![other]) <==> rows::value_at(
            a,
            p,
            own as int,
        ) == rows::value_at(b, q, other as int),
{
    let (u, v) = (row_of(a, p, seq![own]), row_of(b, q, seq![other]));
    assert(comma_at_most_in(u, v, 0));
    law_key_tells_values(a, p, seq![own], b, q, seq![other]);
    assert(u =~= seq![rows::value_at(a, p, own as int)]);
    assert(v =~= seq![rows::value_at(b, q, other as int)]);
    assert(u[0] == rows::value_at(a, p, own as int));
    assert(v[0] == rows::value_at(b, q, other as int));
}

/// The key of values.
spec fn key_of(v: Seq<ValueView>) -> Seq<char>
    decreases v.len(),
{
    if v.len() == 0 {
        Seq::empty()
    } else {
        key_of(v.drop_last()) + rows::key_part(v.last())
    }
}

proof fn lemma_key_of_values(ds: DatasetView, p: (usize, usize), idxs: Seq<usize>)
    ensures
        rows::row_key(ds, p, idxs) == key_of(row_of(ds, p, idxs)),
    decreases idxs.len(),
{
    if idxs.len() > 0 {
        lemma_key_of_values(ds, p, idxs.drop_last());
        assert(row_of(ds, p, idxs).drop_last() =~= row_of(ds, p, idxs.drop_last()));
    }
}

/// A key starts with the part of its first value.
proof fn lemma_key_starts(v: Seq<ValueView>)
    requires
        v.len() > 0,
    ensures
        key_of(v) == rows::key_part(v[0]) + key_of(v.skip(1)),
    decreases v.len(),
{
    let first = rows::key_part(v[0]);
    let head = v.drop_last();
    if v.len() == 1 {
        assert(key_of(head) =~= Seq::empty());
        assert(key_of(v.skip(1)) =~= Seq::empty());
        assert(key_of(v) =~= first + key_of(v.skip(1)));
    } else {
        lemma_key_starts(head);
        assert(v.skip(1).drop_last() =~= head.skip(1));
        assert(key_of(v) =~= first + (key_of(head.skip(1)) + rows::key_part(v.last())));
    }
}

proof fn lemma_keys_differ(u: Seq<ValueView>, v: Seq<ValueView>, t: int)
    requires
        u.len() == v.len(),
        0 <= t <= u.len(),
        comma_at_most_in(u, v, t),
        key_of(u) == key_of(v),
    ensures
        u == v,
    decreases u.len(),
{
    if u.len() == 0 {
        assert(u =~= v);
    } else if t > 0 {
        let (x, y) = (u.skip(1), v.skip(1));
        lemma_key_starts(u);
        lemma_key_starts(v);
        assert(no_comma(u[0]));
        lemma_first_part(u[0], key_of(x), v[0], key_of(y));
        assert(comma_at_most_in(x, y, t - 1)) by {
            assert forall|i: int| 0 <= i < t - 1 implies no_comma(#[trigger] x[i]) && no_comma(
                y[i],
            ) by {
                assert(x[i] == u[i + 1]);
            }
            assert forall|i: int| t - 1 < i < x.len() implies !((#[trigger] x[i]) is String)
                && !(y[i] is String) by {
                assert(x[i] == u[i + 1]);
            }
        }
        lemma_keys_differ(x, y, t - 1);
        assert(u =~= seq![u[0]] + x);
        assert(v =~= seq![v[0]] + y);
    } else if u.len() == 1 {
        assert(key_of(u.drop_last()) =~= Seq::empty());
        assert(key_of(v.drop_last()) =~= Seq::empty());
        assert(key_of(u) =~= rows::key_part(u[0]));
        assert(key_of(v) =~= rows::key_part(v[0]));
        lemma_one_part(u[0], v[0]);
        assert(u =~= v);
    } else {
        let n = u.len() - 1;
        let (x, y) = (u.drop_last(), v.drop_last());
        assert(!(u[n] is String));
        lemma_last_part(key_of(x), u[n], key_of(y), v[n]);
        assert(comma_at_most_in(x, y, 0)) by {
            assert forall|i: int| 0 < i < x.len() implies !((#[trigger] x[i]) is String) && !(
            y[i] is String) by {
                assert(x[i] == u[i]);
            }
        }
        lemma_keys_differ(x, y, 0);
        assert(u =~= x.push(u[n]));
        assert(v =~= y.push(v[n]));
    }
}

/// Two values with one part are the same.
proof fn lemma_one_part(a: ValueView, b: ValueView)
    requires
        rows::key_part(a) == rows::key_part(b),
    ensures
        a == b,
{
    reveal_strlit("N:");
    reveal_strlit("S:");
    reveal_strlit("M,");
    reveal_strlit(",");
    let s = rows::key_part(a);
    let t = rows::key_part(b);
    assert(s[0] == t[0]);
    match (a, b) {
        (ValueView::Numeric(n), ValueView::Numeric(m)) => {
            assert(s.skip(2) =~= text::decimal(n.bits as nat) + ","@);
            assert(t.skip(2) =~= text::decimal(m.bits as nat) + ","@);
            text_law::law_decimal_tells_numbers(n.bits as nat, ","@, m.bits as nat, ","@);
        },
        (ValueView::String(x), ValueView::String(y)) => {
            assert(s.subrange(2, s.len() - 1) =~= x);
            assert(t.subrange(2, t.len() - 1) =~= y);
        },
        _ => {},
    }
}

/// Where two keys agree and their first values hold no comma, so do these and what
/// follows them.
proof fn lemma_first_part(a: ValueView, x: Seq<char>, b: ValueView, y: Seq<char>)
    requires
        no_comma(a),
        no_comma(b),
        rows::key_part(a) + x == rows::key_part(b) + y,
    ensures
        a == b,
        x == y,
{
    reveal_strlit("N:");
    reveal_strlit("S:");
    reveal_strlit("M,");
    reveal_strlit(",");
    let s = rows::key_part(a) + x;
    let t = rows::key_part(b) + y;
    assert(s[0] == rows::key_part(a)[0]);
    assert(t[0] == rows::key_part(b)[0]);
    match (a, b) {
        (ValueView::Numeric(n), ValueView::Numeric(m)) => {
            assert(s.skip(2) =~= text::decimal(n.bits as nat) + (","@ + x));
            assert(t.skip(2) =~= text::decimal(m.bits as nat) + (","@ + y));
            text_law::law_decimal_tells_numbers(
                n.bits as nat,
                ","@ + x,
                m.bits as nat,
                ","@ + y,
            );
            assert(x =~= (","@ + x).skip(1));
            assert(y =~= (","@ + y).skip(1));
        },
        (ValueView::String(u), ValueView::String(v)) => {
            assert(s[2 + u.len() as int] == ',');
            assert(t[2 + v.len() as int] == ',');
            if u.len() < v.len() {
                assert(t[2 + u.len() as int] == v[u.len() as int]);
            } else if v.len() < u.len() {
                assert(s[2 + v.len() as int] == u[v.len() as int]);
            }
            assert(u =~= s.subrange(2, 2 + u.len() as int));
            assert(v =~= t.subrange(2, 2 + v.len() as int));
            assert(x =~= s.skip(3 + u.len() as int));
            assert(y =~= t.skip(3 + v.len() as int));
        },
        (ValueView::SystemMissing, ValueView::SystemMissing) => {
            assert(x =~= s.skip(2));
            assert(y =~= t.skip(2));
        },
        _ => {},
    }
}

/// Where two keys agree and their last values are no texts, so do these and what
/// stands before them.
proof fn lemma_last_part(x: Seq<char>, a: ValueView, y: Seq<char>, b: ValueView)
    requires
        !(a is String),
        !(b is String),
        x + rows::key_part(a) == y + rows::key_part(b),
    ensures
        a == b,
        x == y,
{
    reveal_strlit("N:");
    reveal_strlit("M,");
    reveal_strlit(",");
    let s = x + rows::key_part(a);
    let t = y + rows::key_part(b);
    let n = s.len() as int;
    match a {
        ValueView::Numeric(c) => {
            text_law::law_decimal_value(c.bits as nat);
            let d = text::decimal(c.bits as nat);
            assert(s[n - 2] == d[d.len() - 1]);
        },
        _ => {
            assert(s[n - 2] == 'M');
        },
    }
    match b {
        ValueView::Numeric(c) => {
            text_law::law_decimal_value(c.bits as nat);
            let d = text::decimal(c.bits as nat);
            assert(t[n - 2] == d[d.len() - 1]);
        },
        _ => {
            assert(t[n - 2] == 'M');
        },
    }
    match (a, b) {
        (ValueView::Numeric(k), ValueView::Numeric(m)) => {
            let (d, e) = (text::decimal(k.bits as nat), text::decimal(m.bits as nat));
            assert(s[n - 2 - d.len()] == ':');
            assert(t[n - 2 - e.len()] == ':');
            if d.len() < e.len() {
                assert(t[n - 2 - d.len()] == e[e.len() - 1 - d.len()]);
            } else if e.len() < d.len() {
                assert(s[n - 2 - e.len()] == d[d.len() - 1 - e.len()]);
            }
            assert(d =~= s.subrange(n - 1 - d.len(), n - 1));
            assert(e =~= t.subrange(n - 1 - e.len(), n - 1));
            assert(x =~= s.take(n - 3 - d.len()));
            assert(y =~= t.take(n - 3 - e.len()));
        },
        _ => {
            assert(x =~= s.take(n - 2));
            assert(y =~= t.take(n - 2));
        },
    }
}

/// Groups come in the order in which their keys first occur: of two keys the one that
/// comes first among the different keys has an occurrence before all of the other.
pub proof fn law_first_seen(keys: Seq<Seq<char>>, i: int, j: int)
    requires
        0 <= i < j < rows::distinct(keys).len(),
    ensures
        exists|p: int|
            0 <= p < keys.len() && #[trigger] keys[p] == rows::distinct(keys)[i] && forall|q: int|
                0 <= q <= p ==> #[trigger] keys[q] != rows::distinct(keys)[j],
    decreases keys.len(),
{
    let all = rows::distinct(keys);
    let fewer = keys.drop_last();
    let before = rows::distinct(fewer);
    rows::law_distinct(fewer);
    if j < before.len() {
        law_first_seen(fewer, i, j);
        let p = choose|p: int|
            0 <= p < fewer.len() && #[trigger] fewer[p] == before[i] && forall|q: int|
                0 <= q <= p ==> #[trigger] fewer[q] != before[j];
        assert(keys[p] == all[i]);
        assert forall|q: int| 0 <= q <= p implies #[trigger] keys[q] != all[j] by {
            assert(fewer[q] != before[j]);
        }
    } else {
        assert(before.contains(before[i]));
        assert(fewer.contains(before[i]));
        let p = choose|p: int| 0 <= p < fewer.len() && fewer[p] == before[i];
        assert(keys[p] == all[i]);
        assert forall|q: int| 0 <= q <= p implies #[trigger] keys[q] != all[j] by {
            if fewer[q] == keys.last() {
                assert(fewer.contains(keys.last()));
            }
        }
    }
}

} // verus!
