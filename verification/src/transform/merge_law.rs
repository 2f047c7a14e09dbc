//! Which entries stand where after files are put together.
use vstd::prelude::*;

use crate::batch;
use crate::batch::{BatchView, CellView, ColumnView};
use crate::dataset::DatasetView;
use crate::text;
use crate::transform::files;
use crate::transform::join;
use crate::transform::law;
use crate::transform::rows;
use crate::variable::VariableView;

verus! {

/// The entries of the `i`th variable in all cases.
pub open spec fn entries(batches: Seq<BatchView>, i: int) -> Seq<CellView>
    decreases batches.len(),
{
    if batches.len() == 0 {
        Seq::empty()
    } else {
        batches[0].columns[i].cells + entries(batches.skip(1), i)
    }
}

/// The entries of the `i`th variable of a dataset in all cases.
pub open spec fn entries_of(ds: DatasetView, i: int) -> Seq<CellView> {
    entries(ds.batches, i)
}

pub proof fn lemma_entries_last(batches: Seq<BatchView>, i: int)
    requires
        batches.len() > 0,
    ensures
        entries(batches, i) == entries(batches.drop_last(), i) + batches.last().columns[i].cells,
    decreases batches.len(),
{
    let rest = batches.skip(1);
    if batches.len() == 1 {
        assert(rest =~= Seq::empty());
        assert(batches.drop_last() =~= Seq::empty());
        assert(entries(batches, i) =~= entries(batches.drop_last(), i)
            + batches.last().columns[i].cells);
    } else {
        lemma_entries_last(rest, i);
        assert(rest.drop_last() =~= batches.drop_last().skip(1));
        assert(rest.last() == batches.last());
        assert(entries(batches, i) =~= entries(batches.drop_last(), i)
            + batches.last().columns[i].cells);
    }
}

proof fn lemma_joined_entries(columns: Seq<ColumnView>, batches: Seq<BatchView>, i: int)
    requires
        columns.len() == batches.len(),
        forall|b: int| 0 <= b < columns.len() ==> #[trigger] columns[b] == batches[b].columns[i],
    ensures
        batch::joined_cells(columns) == entries(batches, i),
    decreases columns.len(),
{
    if columns.len() > 0 {
        assert forall|b: int| 0 <= b < columns.drop_last().len() implies
            #[trigger] columns.drop_last()[b] == batches.drop_last()[b].columns[i] by {
            assert(columns[b] == batches[b].columns[i]);
        }
        lemma_joined_entries(columns.drop_last(), batches.drop_last(), i);
        lemma_entries_last(batches, i);
    }
}

/// What a column of a dataset holds.
pub proof fn lemma_column_entries(ds: DatasetView, i: int)
    ensures
        batch::concatenated(rows::columns_at(ds, i)) matches Ok(c) ==> c.cells == entries_of(ds, i),
{
    lemma_joined_entries(rows::columns_at(ds, i), ds.batches, i);
}

/// What a table of columns holds.
pub proof fn lemma_table_entries(vars: Seq<VariableView>, columns: Seq<ColumnView>, out: DatasetView)
    requires
        rows::table_of(vars, columns) == Ok::<DatasetView, Seq<char>>(out),
    ensures
        out.variables == vars,
        columns.len() == vars.len(),
        forall|j: int| 0 <= j < columns.len() ==> #[trigger] entries_of(out, j) == columns[j].cells,
{
    assert forall|j: int| 0 <= j < columns.len() implies #[trigger] entries_of(out, j)
        == columns[j].cells by {
        assert(out.batches.skip(1) =~= Seq::empty());
        assert(entries(out.batches.skip(1), j) =~= Seq::empty());
        assert(out.batches[0].columns == columns);
        assert(entries(out.batches, j) =~= columns[j].cells);
    }
}

/// The entry at the position of a case.
proof fn lemma_entry_at(ds: DatasetView, i: int, n: int, k: int)
    requires
        ds.wf(),
        0 <= i,
        rows::covered(ds, i),
        ds.batches.len() <= usize::MAX,
        0 <= n <= ds.batches.len(),
        0 <= k < rows::positions_in(ds.batches, n).len(),
    ensures
        entries(ds.batches.take(n), i).len() == rows::positions_in(ds.batches, n).len(),
        ({
            let p = rows::positions_in(ds.batches, n)[k];
            entries(ds.batches.take(n), i)[k]
                == ds.batches[p.0 as int].columns[i].cells[p.1 as int]
        }),
    decreases n,
{
    lemma_entry_count(ds, i, n);
    if n > 0 {
        let before = rows::positions_in(ds.batches, n - 1);
        let t = ds.batches.take(n);
        assert(t.drop_last() =~= ds.batches.take(n - 1));
        lemma_entries_last(t, i);
        lemma_entry_count(ds, i, n - 1);
        if k < before.len() {
            lemma_entry_at(ds, i, n - 1, k);
        }
    }
}

proof fn lemma_entry_count(ds: DatasetView, i: int, n: int)
    requires
        ds.wf(),
        0 <= i,
        rows::covered(ds, i),
        ds.batches.len() <= usize::MAX,
        0 <= n <= ds.batches.len(),
    ensures
        entries(ds.batches.take(n), i).len() == rows::positions_in(ds.batches, n).len(),
        n > 0 ==> ds.batches[n - 1].columns[i].cells.len() == ds.batches[n - 1].num_rows,
    decreases n,
{
    let t = ds.batches.take(n);
    if n > 0 {
        assert(t.drop_last() =~= ds.batches.take(n - 1));
        lemma_entries_last(t, i);
        lemma_entry_count(ds, i, n - 1);
        assert(ds.batches[n - 1].wf());
    } else {
        assert(t =~= Seq::empty());
    }
}

/// The value of an entry by its position.
pub proof fn lemma_entry_of_case(ds: DatasetView, i: int, k: int)
    requires
        ds.wf(),
        0 <= i,
        rows::covered(ds, i),
        ds.batches.len() <= usize::MAX,
        0 <= k < ds.n_cases(),
    ensures
        entries_of(ds, i).len() == ds.n_cases(),
        rows::positions(ds).len() == ds.n_cases(),
        ({
            let p = rows::positions(ds)[k];
            entries_of(ds, i)[k] == ds.batches[p.0 as int].columns[i].cells[p.1 as int]
        }),
{
    let n = ds.batches.len() as int;
    assert(ds.batches.take(n) =~= ds.batches);
    rows::lemma_positions(ds, n);
    lemma_entry_at(ds, i, n, k);
}

proof fn lemma_part_start(dss: Seq<DatasetView>, parts: Seq<ColumnView>, d: int, k: int)
    requires
        dss.len() == parts.len(),
        forall|d: int| 0 <= d < dss.len() ==> (#[trigger] parts[d]).cells.len() == dss[d].n_cases(),
        0 <= d < dss.len(),
        0 <= k < dss[d].n_cases(),
    ensures
        batch::joined_cells(parts).len() == files::total_cases(dss),
        files::total_cases(dss.take(d)) + k < files::total_cases(dss),
        batch::joined_cells(parts)[files::total_cases(dss.take(d)) + k] == parts[d].cells[k],
    decreases dss.len(),
{
    let fewer = dss.drop_last();
    lemma_part_count(dss, parts);
    lemma_part_count_first(dss, parts);
    if d < dss.len() - 1 {
        assert(fewer.take(d) =~= dss.take(d));
        assert forall|e: int| 0 <= e < fewer.len() implies (#[trigger] parts.drop_last()[e]).cells.len()
            == fewer[e].n_cases() by {
            assert(parts[e].cells.len() == dss[e].n_cases());
        }
        lemma_part_start(fewer, parts.drop_last(), d, k);
    } else {
        assert(dss.take(d) =~= fewer);
        assert(parts[d].cells.len() == dss[d].n_cases());
    }
}

proof fn lemma_part_count_first(dss: Seq<DatasetView>, parts: Seq<ColumnView>)
    requires
        dss.len() == parts.len(),
        dss.len() > 0,
        forall|d: int| 0 <= d < dss.len() ==> (#[trigger] parts[d]).cells.len() == dss[d].n_cases(),
    ensures
        batch::joined_cells(parts.drop_last()).len() == files::total_cases(dss.drop_last()),
{
    let fewer = dss.drop_last();
    assert forall|e: int| 0 <= e < fewer.len() implies (#[trigger] parts.drop_last()[e]).cells.len()
        == fewer[e].n_cases() by {
        assert(parts[e].cells.len() == dss[e].n_cases());
    }
    lemma_part_count(fewer, parts.drop_last());
}

proof fn lemma_part_count(dss: Seq<DatasetView>, parts: Seq<ColumnView>)
    requires
        dss.len() == parts.len(),
        forall|d: int| 0 <= d < dss.len() ==> (#[trigger] parts[d]).cells.len() == dss[d].n_cases(),
    ensures
        batch::joined_cells(parts).len() == files::total_cases(dss),
    decreases dss.len(),
{
    if dss.len() > 0 {
        let fewer = dss.drop_last();
        assert forall|e: int| 0 <= e < fewer.len() implies (
        #[trigger] parts.drop_last()[e]).cells.len() == fewer[e].n_cases() by {
            assert(parts[e].cells.len() == dss[e].n_cases());
        }
        lemma_part_count(fewer, parts.drop_last());
        assert(parts[dss.len() - 1].cells.len() == dss[dss.len() - 1].n_cases());
    }
}

/// ADD FILES: the `k`th case of a file comes behind the cases of the files before it,
/// with its entries under the variables of their names, and with nulls for the
/// variables that the file does not have.
pub proof fn law_added_entries(dss: Seq<DatasetView>, out: DatasetView, d: int, k: int, j: int)
    requires
        forall|d: int| 0 <= d < dss.len() ==> (#[trigger] dss[d]).wf(),
        files::added(dss) == Some(Ok::<DatasetView, Seq<char>>(out)),
        0 <= d < dss.len(),
        0 <= k < dss[d].n_cases(),
        0 <= j < out.variables.len(),
    ensures
        entries_of(out, j).len() == files::total_cases(dss),
        files::total_cases(dss.take(d)) + k < files::total_cases(dss),
        entries_of(out, j)[files::total_cases(dss.take(d)) + k] == match dss[d].index_of(
            out.variables[j].name,
        ) {
            Some(i) => entries_of(dss[d], i as int)[k],
            None => CellView::Null,
        },
{
    let columns = files::file_columns(dss);
    let all = rows::gathered(columns)->0->Ok_0;
    law::lemma_gathered(columns, all);
    lemma_table_entries(files::union_variables(dss), all, out);
    let var = files::variable_at(dss, files::union(dss)[j]);
    assert(out.variables[j] == var);
    assert(columns[j] == Some(Ok::<ColumnView, Seq<char>>(all[j])));
    let parts = files::file_parts(dss, var);
    let found = rows::gathered(parts)->0->Ok_0;
    law::lemma_gathered(parts, found);
    assert forall|e: int| 0 <= e < dss.len() implies (#[trigger] found[e]).cells.len()
        == dss[e].n_cases() by {
        assert(parts[e] == Some(Ok::<ColumnView, Seq<char>>(found[e])));
        assert(dss[e].wf());
        law::lemma_file_part(dss[e], var);
    }
    lemma_part_start(dss, found, d, k);
    assert(parts[d] == Some(Ok::<ColumnView, Seq<char>>(found[d])));
    if let Some(i) = dss[d].index_of(var.name) {
        lemma_column_entries(dss[d], i as int);
    }
}

/// The place of a variable comes before another in several files.
pub open spec fn earlier(p: (int, int), q: (int, int)) -> bool {
    p.0 < q.0 || (p.0 == q.0 && p.1 < q.1)
}

/// A variable of several files is one whose name, in any case, none before it has.
proof fn lemma_union_first(dss: Seq<DatasetView>, d: int, i: int, j: int)
    requires
        dss.len() <= usize::MAX,
        forall|c: int| 0 <= c < dss.len() ==> (#[trigger] dss[c]).variables.len() <= usize::MAX,
        0 <= d <= dss.len(),
        0 <= i,
        i > 0 ==> d < dss.len() && i <= dss[d].variables.len(),
        0 <= j < files::new_names(dss, d, i).len(),
    ensures
        ({
            let p = files::new_names(dss, d, i)[j];
            &&& p.0 < dss.len()
            &&& p.1 < dss[p.0 as int].variables.len()
            &&& earlier((p.0 as int, p.1 as int), (d, i))
            &&& forall|c: int, m: int|
                0 <= c < dss.len() && 0 <= m < dss[c].variables.len() && earlier(
                    (c, m),
                    (p.0 as int, p.1 as int),
                ) ==> text::uppercase((#[trigger] dss[c].variables[m]).name) != text::uppercase(
                    files::variable_at(dss, p).name,
                )
        }),
    decreases d, i,
{
    if i <= 0 {
        if d > 0 {
            lemma_union_first(dss, d - 1, dss[d - 1].variables.len() as int, j);
        }
    } else {
        let before = files::new_names(dss, d, i - 1);
        let key = text::uppercase(dss[d].variables[i - 1].name);
        if j < before.len() {
            lemma_union_first(dss, d, i - 1, j);
        } else {
            assert(!files::named(dss, before, key));
            files::law_union(dss, d, i - 1);
            assert forall|c: int, m: int|
                0 <= c < dss.len() && 0 <= m < dss[c].variables.len() && earlier(
                    (c, m),
                    (d, i - 1),
                ) implies text::uppercase((#[trigger] dss[c].variables[m]).name) != key by {
                assert(files::named(dss, before, text::uppercase(dss[c].variables[m].name)));
            }
        }
    }
}

/// MATCH FILES without keys: each variable is that of the first file that has its
/// name, in any case, with the entries that it has there, and with nulls behind the
/// last case of that file.
pub proof fn law_matched_entries(dss: Seq<DatasetView>, out: DatasetView, j: int)
    requires
        dss.len() <= usize::MAX,
        forall|d: int|
            0 <= d < dss.len() ==> (#[trigger] dss[d]).wf() && dss[d].variables.len() <= usize::MAX,
        files::matched(dss) == Some(Ok::<DatasetView, Seq<char>>(out)),
        0 <= j < out.variables.len(),
    ensures
        exists|d: int, i: int|
            {
                &&& 0 <= d < dss.len()
                &&& 0 <= i < dss[d].variables.len()
                &&& out.variables[j] == #[trigger] dss[d].variables[i]
                &&& forall|c: int, m: int|
                    0 <= c < dss.len() && 0 <= m < dss[c].variables.len() && earlier((c, m), (d, i))
                        ==> text::uppercase((#[trigger] dss[c].variables[m]).name)
                        != text::uppercase(out.variables[j].name)
                &&& entries_of(out, j).len() == files::most_cases(dss)
                &&& entries_of(dss[d], i).len() == dss[d].n_cases()
                &&& forall|k: int|
                    0 <= k < files::most_cases(dss) ==> #[trigger] entries_of(out, j)[k] == if k
                        < dss[d].n_cases() {
                        entries_of(dss[d], i)[k]
                    } else {
                        CellView::Null
                    }
            },
{
    let columns = files::padded_columns(dss);
    let all = rows::gathered(columns)->0->Ok_0;
    law::lemma_gathered(columns, all);
    lemma_table_entries(files::union_variables(dss), all, out);
    assert forall|c: int| 0 <= c < dss.len() implies (#[trigger] dss[c]).variables.len()
        <= usize::MAX by {
        assert(dss[c].wf() && dss[c].variables.len() <= usize::MAX);
    }
    lemma_union_first(dss, dss.len() as int, 0, j);
    let p = files::union(dss)[j];
    let (d, i) = (p.0 as int, p.1 as int);
    let ds = dss[d];
    assert(ds.wf());
    lemma_most(dss, d);
    assert(columns[j] == Some(Ok::<ColumnView, Seq<char>>(all[j])));
    rows::lemma_concatenated_len(ds, i);
    lemma_column_entries(ds, i);
    let c = batch::concatenated(rows::columns_at(ds, i))->Ok_0;
    if ds.n_cases() < files::most_cases(dss) {
        let pad = batch::null_column(
            ds.variables[i].var_type,
            (files::most_cases(dss) - ds.n_cases()) as nat,
        );
        let two = seq![c, pad];
        assert(two.drop_last() =~= seq![c]);
        assert(seq![c].drop_last() =~= Seq::empty());
        assert(batch::joined_cells(seq![c].drop_last()) =~= Seq::empty());
        assert(batch::joined_cells(two.drop_last()) =~= c.cells);
        assert(batch::joined_cells(two) =~= c.cells + pad.cells);
    }
    assert(out.variables[j] == dss[d].variables[i]);
}

proof fn lemma_most(dss: Seq<DatasetView>, d: int)
    requires
        0 <= d < dss.len(),
    ensures
        dss[d].n_cases() <= files::most_cases(dss),
    decreases dss.len(),
{
    if d < dss.len() - 1 {
        lemma_most(dss.drop_last(), d);
        assert(dss.drop_last()[d] == dss[d]);
    }
}

/// A case of one file and a case of another have the same key.
pub open spec fn same_key(
    primary: DatasetView,
    k: int,
    lookup: DatasetView,
    m: int,
    by: Seq<Seq<char>>,
) -> bool {
    rows::row_key(primary, rows::positions(primary)[k], rows::indices_of(primary, by))
        == rows::row_key(lookup, rows::positions(lookup)[m], rows::indices_of(lookup, by))
}

/// The `m`th case of the lookup file is the first with the key of a case.
pub open spec fn first_match(
    primary: DatasetView,
    k: int,
    lookup: DatasetView,
    m: int,
    by: Seq<Seq<char>>,
) -> bool {
    &&& 0 <= m < lookup.n_cases()
    &&& same_key(primary, k, lookup, m, by)
    &&& forall|n: int| 0 <= n < m ==> !#[trigger] same_key(primary, k, lookup, n, by)
}

proof fn lemma_first_member(
    keys: Seq<Seq<char>>,
    at: Seq<(usize, usize)>,
    key: Seq<char>,
    m: int,
)
    requires
        0 <= m < keys.len(),
        keys.len() <= at.len(),
        keys[m] == key,
        forall|n: int| 0 <= n < m ==> #[trigger] keys[n] != key,
    ensures
        join::first_with(keys, at, key) == Some(at[m]),
    decreases keys.len(),
{
    let fewer = keys.drop_last();
    if m < keys.len() - 1 {
        assert(fewer[m] == key);
        assert forall|n: int| 0 <= n < m implies #[trigger] fewer[n] != key by {
            assert(keys[n] != key);
        }
        lemma_first_member(fewer, at, key, m);
    } else {
        rows::law_members(fewer, at, key);
        if fewer.contains(key) {
            let n = choose|n: int| 0 <= n < fewer.len() && fewer[n] == key;
            assert(keys[n] == key);
        }
    }
}

proof fn lemma_of_file(at: Seq<(usize, usize)>, d: usize)
    ensures
        forall|k: int|
            0 <= k < join::of_file(at, d).len() ==> exists|j: int|
                0 <= j < at.len() && at[j] == (d, #[trigger] join::of_file(at, d)[k]),
    decreases at.len(),
{
    if at.len() > 0 {
        let all = join::of_file(at, d);
        let before = join::of_file(at.drop_last(), d);
        lemma_of_file(at.drop_last(), d);
        assert forall|k: int| 0 <= k < all.len() implies exists|j: int|
            0 <= j < at.len() && at[j] == (d, #[trigger] all[k]) by {
            if k < before.len() {
                assert(all[k] == before[k]);
                let j = choose|j: int|
                    0 <= j < at.drop_last().len() && at.drop_last()[j] == (d, before[k]);
                assert(at[j] == (d, all[k]));
            } else {
                assert(at[at.len() - 1] == (d, all[k]));
            }
        }
    }
}

/// The added variable at `j`: one of the lookup file whose name, in any case, the
/// primary file does not have.
proof fn lemma_added_variable(primary: DatasetView, lookup: DatasetView, j: int) -> (i: int)
    requires
        primary.variables.len() <= usize::MAX,
        lookup.variables.len() <= usize::MAX,
        0 <= j < join::added_variables(primary, lookup).len(),
    ensures
        i == join::added_variables(primary, lookup)[j],
        0 <= i < lookup.variables.len(),
        forall|m: int|
            0 <= m < primary.variables.len() ==> text::uppercase(
                (#[trigger] primary.variables[m]).name,
            ) != text::uppercase(lookup.variables[i].name),
{
    let dss = seq![primary, lookup];
    let at = files::union(dss);
    lemma_of_file(at, 1);
    let i = join::added_variables(primary, lookup)[j];
    let n = choose|n: int| 0 <= n < at.len() && at[n] == (1usize, i);
    lemma_union_first(dss, 2, 0, n);
    assert(dss[0] == primary && dss[1] == lookup);
    assert forall|m: int| 0 <= m < primary.variables.len() implies text::uppercase(
        (#[trigger] primary.variables[m]).name,
    ) != text::uppercase(lookup.variables[i as int].name) by {
        assert(text::uppercase(dss[0].variables[m].name) != text::uppercase(
            files::variable_at(dss, at[n]).name,
        ));
    }
    i as int
}

/// MATCH FILES by key keeps the entries of the primary file and adds the variables of
/// the lookup file whose names the primary file does not have. A case gets the
/// entries of the first case of the lookup file that has its key, and nulls where
/// there is none.
pub proof fn law_joined_entries(
    primary: DatasetView,
    lookup: DatasetView,
    by: Seq<Seq<char>>,
    out: DatasetView,
    k: int,
    j: int,
)
    requires
        primary.wf(),
        lookup.wf(),
        0 < primary.batches.len() <= usize::MAX,
        lookup.batches.len() <= usize::MAX,
        primary.variables.len() <= usize::MAX,
        lookup.variables.len() <= usize::MAX,
        join::joined(primary, lookup, by) == Some(Ok::<DatasetView, Seq<char>>(out)),
        0 <= k < primary.n_cases(),
        0 <= j < out.variables.len(),
    ensures
        if j < primary.variables.len() {
            &&& out.variables[j] == primary.variables[j]
            &&& entries_of(out, j) == entries_of(primary, j)
        } else {
            exists|i: int|
                {
                    &&& 0 <= i < lookup.variables.len()
                    &&& out.variables[j] == #[trigger] lookup.variables[i]
                    &&& forall|m: int|
                        0 <= m < primary.variables.len() ==> text::uppercase(
                            (#[trigger] primary.variables[m]).name,
                        ) != text::uppercase(out.variables[j].name)
                    &&& entries_of(out, j).len() == primary.n_cases()
                    &&& forall|m: int| #[trigger]
                        first_match(primary, k, lookup, m, by) && rows::covered(lookup, i)
                            ==> entries_of(out, j)[k] == entries_of(lookup, i)[m]
                    &&& (forall|m: int|
                        0 <= m < lookup.n_cases() ==> !#[trigger] same_key(
                            primary,
                            k,
                            lookup,
                            m,
                            by,
                        )) ==> entries_of(out, j)[k] == CellView::Null
                }
        },
{
    let at = join::partners(primary, lookup, by);
    let idxs = join::added_variables(primary, lookup);
    let nv = primary.variables.len() as int;
    let own = rows::all_columns(primary, nv)->0->Ok_0;
    let columns = join::joined_columns(own, lookup, idxs, at);
    lemma_table_entries(join::joined_variables(primary, lookup), columns, out);
    rows::lemma_all_columns(primary, nv);
    if j < nv {
        assert(columns[j] == own[j]);
        lemma_column_entries(primary, j);
    } else {
        let i = lemma_added_variable(primary, lookup, j - nv);
        let p_own = rows::positions(primary);
        let p_other = rows::positions(lookup);
        rows::lemma_positions(primary, primary.batches.len() as int);
        rows::lemma_positions(lookup, lookup.batches.len() as int);
        assert(primary.batches.take(primary.batches.len() as int) =~= primary.batches);
        assert(lookup.batches.take(lookup.batches.len() as int) =~= lookup.batches);
        let mine = rows::row_keys(primary, p_own, rows::indices_of(primary, by));
        let keys = rows::row_keys(lookup, p_other, rows::indices_of(lookup, by));
        assert(columns[j] == join::aligned(lookup, i, at));
        assert(at[k] == join::first_with(keys, p_other, mine[k]));
        assert forall|m: int| #[trigger]
            first_match(primary, k, lookup, m, by) && rows::covered(lookup, i) implies entries_of(
            out,
            j,
        )[k] == entries_of(lookup, i)[m] by {
            assert forall|n: int| 0 <= n < m implies #[trigger] keys[n] != mine[k] by {
                assert(!same_key(primary, k, lookup, n, by));
            }
            lemma_first_member(keys, p_other, mine[k], m);
            lemma_entry_of_case(lookup, i, m);
        }
        if forall|m: int|
            0 <= m < lookup.n_cases() ==> !#[trigger] same_key(primary, k, lookup, m, by) {
            rows::law_members(keys, p_other, mine[k]);
            if keys.contains(mine[k]) {
                let n = choose|n: int| 0 <= n < keys.len() && keys[n] == mine[k];
                assert(same_key(primary, k, lookup, n, by));
            }
        }
        assert(out.variables[j] == lookup.variables[i]);
    }
}

/// With one key variable two cases have the same key where they have the same value.
pub proof fn law_one_key(
    primary: DatasetView,
    k: int,
    lookup: DatasetView,
    m: int,
    name: Seq<char>,
)
    requires
        primary.index_of(name) is Some,
        lookup.index_of(name) is Some,
    ensures
        same_key(primary, k, lookup, m, seq![name]) <==> rows::value_at(
            primary,
            rows::positions(primary)[k],
            primary.index_of(name)->0 as int,
        ) == rows::value_at(
            lookup,
            rows::positions(lookup)[m],
            lookup.index_of(name)->0 as int,
        ),
{
    let a = primary.index_of(name)->0;
    let b = lookup.index_of(name)->0;
    assert(rows::indices_of(primary, seq![name]) =~= seq![a]);
    assert(rows::indices_of(lookup, seq![name]) =~= seq![b]);
    law::law_key_tells_value(
        primary,
        rows::positions(primary)[k],
        a,
        lookup,
        rows::positions(lookup)[m],
        b,
    );
}

} // verus!
