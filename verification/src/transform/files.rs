//! ADD FILES and MATCH FILES.
use vstd::hash_map::StringHashMap;
use vstd::prelude::*;

use crate::batch;
use crate::batch::{concat_columns, create_null_array, Column, ColumnView};
use crate::dataset::{Dataset, DatasetView};
use crate::text;
use crate::text::to_upper;
use crate::transform::rows;
use crate::transform::rows::{concat_column_batches, is_covered, make_table};
use crate::variable::{Variable, VariableView};

verus! {

broadcast use crate::text::lemma_views_push;

/// A variable of one of several datasets.
pub open spec fn variable_at(dss: Seq<DatasetView>, p: (usize, usize)) -> VariableView {
    dss[p.0 as int].variables[p.1 as int]
}

/// One of the variables has the name, in any case.
pub open spec fn named(dss: Seq<DatasetView>, at: Seq<(usize, usize)>, key: Seq<char>) -> bool {
    exists|k: int|
        0 <= k < at.len() && text::uppercase((#[trigger] variable_at(dss, at[k])).name) == key
}

/// The first `i` variables of the dataset `d` and all variables of the datasets
/// before it, without those whose name came before.
pub open spec fn new_names(dss: Seq<DatasetView>, d: int, i: int) -> Seq<(usize, usize)>
    decreases d, i,
{
    if i <= 0 {
        if d <= 0 {
            Seq::empty()
        } else {
            new_names(dss, d - 1, dss[d - 1].variables.len() as int)
        }
    } else {
        let before = new_names(dss, d, i - 1);
        if named(dss, before, text::uppercase(dss[d].variables[i - 1].name)) {
            before
        } else {
            before.push((d as usize, (i - 1) as usize))
        }
    }
}

/// The variables of several datasets; of one name, the first.
pub open spec fn union(dss: Seq<DatasetView>) -> Seq<(usize, usize)> {
    new_names(dss, dss.len() as int, 0)
}

/// The definitions of the variables of several datasets.
pub open spec fn union_variables(dss: Seq<DatasetView>) -> Seq<VariableView> {
    Seq::new(union(dss).len(), |k: int| variable_at(dss, union(dss)[k]))
}

/// A variable of each dataset: in range.
pub open spec fn all_exist(dss: Seq<DatasetView>, at: Seq<(usize, usize)>) -> bool {
    forall|k: int|
        0 <= k < at.len() ==> (#[trigger] at[k]).0 < dss.len() && at[k].1
            < dss[at[k].0 as int].variables.len()
}

/// The cases of several datasets.
pub open spec fn total_cases(dss: Seq<DatasetView>) -> nat
    decreases dss.len(),
{
    if dss.len() == 0 {
        0
    } else {
        total_cases(dss.drop_last()) + dss.last().n_cases()
    }
}

/// The largest number of cases.
pub open spec fn most_cases(dss: Seq<DatasetView>) -> nat
    decreases dss.len(),
{
    if dss.len() == 0 {
        0
    } else {
        let before = most_cases(dss.drop_last());
        if dss.last().n_cases() > before {
            dss.last().n_cases()
        } else {
            before
        }
    }
}

/// A dataset has no more cases than all of them.
pub proof fn lemma_total_cases(dss: Seq<DatasetView>, d: int)
    requires
        0 <= d < dss.len(),
    ensures
        dss[d].n_cases() <= total_cases(dss),
    decreases dss.len(),
{
    if d < dss.len() - 1 {
        lemma_total_cases(dss.drop_last(), d);
        assert(dss.drop_last()[d] == dss[d]);
    }
}

/// No name stands twice among the variables of several datasets, in any case,
/// and each variable's name is there.
pub proof fn law_union(dss: Seq<DatasetView>, d: int, i: int)
    requires
        dss.len() <= usize::MAX,
        forall|j: int| 0 <= j < dss.len() ==> (#[trigger] dss[j]).variables.len() <= usize::MAX,
        0 <= d <= dss.len(),
        0 <= i,
        i > 0 ==> d < dss.len() && i <= dss[d].variables.len(),
    ensures
        all_exist(dss, new_names(dss, d, i)),
        forall|a: int, b: int|
            0 <= a < b < new_names(dss, d, i).len() ==> text::uppercase(
                (#[trigger] variable_at(dss, new_names(dss, d, i)[a])).name,
            ) != text::uppercase((#[trigger] variable_at(dss, new_names(dss, d, i)[b])).name),
        forall|j: int|
            0 <= j < i ==> named(
                dss,
                new_names(dss, d, i),
                text::uppercase((#[trigger] dss[d].variables[j]).name),
            ),
        forall|c: int, j: int|
            0 <= c < d && 0 <= j < dss[c].variables.len() ==> named(
                dss,
                new_names(dss, d, i),
                text::uppercase((#[trigger] dss[c].variables[j]).name),
            ),
    decreases d, i,
{
    let all = new_names(dss, d, i);
    if i <= 0 {
        if d > 0 {
            law_union(dss, d - 1, dss[d - 1].variables.len() as int);
        }
    } else {
        law_union(dss, d, i - 1);
        let before = new_names(dss, d, i - 1);
        let key = text::uppercase(dss[d].variables[i - 1].name);
        assert forall|k: Seq<char>| #[trigger]
            named(dss, before, k) implies named(dss, all, k) by {
            let m = choose|m: int|
                0 <= m < before.len() && text::uppercase(
                    (#[trigger] variable_at(dss, before[m])).name,
                ) == k;
            assert(variable_at(dss, all[m]) == variable_at(dss, before[m]));
        }
        if !named(dss, before, key) {
            assert(variable_at(dss, all[before.len() as int]) == dss[d].variables[i - 1]);
            assert(named(dss, all, key));
            assert forall|a: int, b: int| 0 <= a < b < all.len() implies text::uppercase(
                (#[trigger] variable_at(dss, all[a])).name,
            ) != text::uppercase((#[trigger] variable_at(dss, all[b])).name) by {
                assert(variable_at(dss, all[a]) == variable_at(dss, before[a]));
                if b < before.len() {
                    assert(variable_at(dss, all[b]) == variable_at(dss, before[b]));
                }
            }
        }
    }
}

/// Lists the variables of several datasets; of one name, the first.
pub(crate) fn find_union(datasets: &[&Dataset]) -> (r: Vec<(usize, usize)>)
    ensures
        r@ == union(text::views(datasets@)),
        all_exist(text::views(datasets@), r@),
{
    let ghost dss = text::views(datasets@);
    let mut seen: StringHashMap<bool> = StringHashMap::new();
    let mut out: Vec<(usize, usize)> = Vec::new();
    let mut d: usize = 0;
    while d < datasets.len()
        invariant
            d <= datasets@.len(),
            dss == text::views(datasets@),
            out@ == new_names(dss, d as int, 0),
            all_exist(dss, out@),
            forall|k: Seq<char>| #[trigger] seen@.contains_key(k) <==> named(dss, out@, k),
        decreases datasets@.len() - d,
    {
        let ds = datasets[d];
        proof {
            assert(dss[d as int] == ds@);
        }
        let mut i: usize = 0;
        while i < ds.variables.len()
            invariant
                d < datasets@.len(),
                i <= ds.variables@.len(),
                dss == text::views(datasets@),
                dss[d as int] == ds@,
                out@ == new_names(dss, d as int, i as int),
                all_exist(dss, out@),
                forall|k: Seq<char>| #[trigger] seen@.contains_key(k) <==> named(dss, out@, k),
            decreases ds.variables@.len() - i,
        {
            let ghost before = out@;
            let ghost seen_before = seen@;
            let key = to_upper(ds.variables[i].name.as_str());
            proof {
                assert(dss[d as int].variables[i as int] == ds.variables@[i as int]@);
            }
            if seen.get(key.as_str()).is_none() {
                let ghost kv = key@;
                seen.insert(key, true);
                out.push((d, i));
                proof {
                    assert(!named(dss, before, kv));
                    assert forall|k: Seq<char>| #[trigger]
                        seen@.contains_key(k) <==> named(dss, out@, k) by {
                        assert(variable_at(dss, out@[before.len() as int])
                            == ds.variables@[i as int]@);
                        assert(seen_before.contains_key(k) <==> named(dss, before, k));
                        if named(dss, before, k) {
                            let m = choose|m: int|
                                0 <= m < before.len() && text::uppercase(
                                    (#[trigger] variable_at(dss, before[m])).name,
                                ) == k;
                            assert(variable_at(dss, out@[m]) == variable_at(dss, before[m]));
                        }
                        if named(dss, out@, k) {
                            let m = choose|m: int|
                                0 <= m < out@.len() && text::uppercase(
                                    (#[trigger] variable_at(dss, out@[m])).name,
                                ) == k;
                            if m < before.len() {
                                assert(variable_at(dss, out@[m]) == variable_at(dss, before[m]));
                            }
                        }
                    }
                }
            }
            i = i + 1;
        }
        d = d + 1;
    }
    out
}

/// Copies the definitions of variables.
fn copy_union(datasets: &[&Dataset], at: &Vec<(usize, usize)>) -> (r: Vec<Variable>)
    requires
        all_exist(text::views(datasets@), at@),
    ensures
        text::views(r@) == Seq::new(
            at@.len(),
            |k: int| variable_at(text::views(datasets@), at@[k]),
        ),
{
    let ghost dss = text::views(datasets@);
    let ghost all = Seq::new(at@.len(), |k: int| variable_at(dss, at@[k]));
    let mut out: Vec<Variable> = Vec::new();
    let mut k: usize = 0;
    while k < at.len()
        invariant
            k <= at@.len(),
            dss == text::views(datasets@),
            all == Seq::new(at@.len(), |k: int| variable_at(dss, at@[k])),
            all_exist(dss, at@),
            text::views(out@) =~= all.take(k as int),
        decreases at@.len() - k,
    {
        proof {
            assert(at@[k as int].0 < dss.len());
            assert(dss[at@[k as int].0 as int] == datasets@[at@[k as int].0 as int]@);
        }
        let (d, i) = at[k];
        out.push(datasets[d].variables[i].clone());
        k = k + 1;
    }
    proof {
        assert(all.take(at@.len() as int) =~= all);
    }
    out
}

/// The data of a variable in one of the files: its column, or nulls where the
/// file does not have it.
pub open spec fn file_part(ds: DatasetView, var: VariableView) -> Option<
    Result<ColumnView, Seq<char>>,
> {
    match ds.index_of(var.name) {
        Some(idx) => if rows::covered(ds, idx as int) {
            Some(batch::concatenated(rows::columns_at(ds, idx as int)))
        } else {
            None
        },
        None => Some(Ok(batch::null_column(var.var_type, ds.n_cases()))),
    }
}

/// The data of a variable in each of the files.
pub open spec fn file_parts(dss: Seq<DatasetView>, var: VariableView) -> Seq<
    Option<Result<ColumnView, Seq<char>>>,
> {
    Seq::new(dss.len(), |d: int| file_part(dss[d], var))
}

/// The data of a variable in all files, one file after another.
pub open spec fn file_column(dss: Seq<DatasetView>, var: VariableView) -> Option<
    Result<ColumnView, Seq<char>>,
> {
    match rows::gathered(file_parts(dss, var)) {
        Some(Ok(parts)) => Some(batch::concatenated(parts)),
        Some(Err(e)) => Some(Err(e)),
        None => None,
    }
}

/// The data of the first variables in all files.
pub open spec fn file_columns(dss: Seq<DatasetView>) -> Seq<Option<Result<ColumnView, Seq<char>>>> {
    Seq::new(union(dss).len(), |k: int| file_column(dss, variable_at(dss, union(dss)[k])))
}

/// The table of variables and the columns that were gathered for them.
pub open spec fn gathered_table(
    vars: Seq<VariableView>,
    columns: Seq<Option<Result<ColumnView, Seq<char>>>>,
) -> Option<Result<DatasetView, Seq<char>>> {
    match rows::gathered(columns) {
        Some(Ok(cols)) => Some(rows::table_of(vars, cols)),
        Some(Err(e)) => Some(Err(e)),
        None => None,
    }
}

/// What ADD FILES gives: the cases of all files, one file after another. There is
/// no outcome where a batch lacks the column of one of its variables.
pub open spec fn added(dss: Seq<DatasetView>) -> Option<Result<DatasetView, Seq<char>>> {
    if dss.len() == 0 {
        Some(Ok(rows::nothing()))
    } else {
        gathered_table(union_variables(dss), file_columns(dss))
    }
}

/// Gathers the data of a variable in all files.
fn collect_file_column(datasets: &[&Dataset], var: &Variable) -> (r: Option<
    Result<Column, String>,
>)
    requires
        total_cases(text::views(datasets@)) <= usize::MAX,
    ensures
        rows::is_outcome(r, file_column(text::views(datasets@), var@)),
{
    let ghost dss = text::views(datasets@);
    let ghost all = file_parts(dss, var@);
    let mut parts: Vec<Column> = Vec::new();
    let mut d: usize = 0;
    proof {
        assert(all.take(0) =~= Seq::empty());
        assert(text::views(parts@) =~= Seq::empty());
    }
    while d < datasets.len()
        invariant
            d <= datasets@.len(),
            dss == text::views(datasets@),
            total_cases(dss) <= usize::MAX,
            all == file_parts(dss, var@),
            rows::gathered(all.take(d as int)) == Some(
                Ok::<Seq<ColumnView>, Seq<char>>(text::views(parts@)),
            ),
        decreases datasets@.len() - d,
    {
        let ds = datasets[d];
        proof {
            assert(dss[d as int] == ds@);
            lemma_total_cases(dss, d as int);
            rows::lemma_gathered_next(all, d as int);
        }
        match ds.variable_index(var.name.as_str()) {
            Some(idx) => {
                if !is_covered(ds, idx) {
                    return None;
                }
                match concat_column_batches(ds, idx) {
                    Ok(c) => {
                        parts.push(c);
                    },
                    Err(e) => {
                        return Some(Err(e));
                    },
                }
            },
            None => {
                parts.push(create_null_array(var.var_type, ds.n_cases()));
            },
        }
        d = d + 1;
    }
    proof {
        assert(all.take(dss.len() as int) =~= all);
    }
    Some(concat_columns(&parts))
}

/// Gathers the data of all variables in all files.
fn collect_file_columns(datasets: &[&Dataset], vars: &Vec<Variable>) -> (r: Option<
    Result<Vec<Column>, String>,
>)
    requires
        total_cases(text::views(datasets@)) <= usize::MAX,
        text::views(vars@) == union_variables(text::views(datasets@)),
    ensures
        rows::is_gathered(r, rows::gathered(file_columns(text::views(datasets@)))),
{
    let ghost dss = text::views(datasets@);
    let ghost vv = text::views(vars@);
    let ghost all = file_columns(dss);
    let mut columns: Vec<Column> = Vec::new();
    let mut k: usize = 0;
    proof {
        assert(all.take(0) =~= Seq::empty());
        assert(text::views(columns@) =~= Seq::empty());
        assert(vv.len() == all.len());
    }
    while k < vars.len()
        invariant
            k <= vars@.len(),
            dss == text::views(datasets@),
            total_cases(dss) <= usize::MAX,
            vv == text::views(vars@),
            vv == union_variables(dss),
            all == file_columns(dss),
            vv.len() == all.len(),
            rows::gathered(all.take(k as int)) == Some(
                Ok::<Seq<ColumnView>, Seq<char>>(text::views(columns@)),
            ),
        decreases vars@.len() - k,
    {
        proof {
            assert(vv[k as int] == vars@[k as int]@);
            assert(all[k as int] == file_column(dss, vv[k as int]));
            rows::lemma_gathered_next(all, k as int);
        }
        match collect_file_column(datasets, &vars[k]) {
            Some(Ok(c)) => {
                columns.push(c);
            },
            Some(Err(e)) => {
                return Some(Err(e));
            },
            None => {
                return None;
            },
        }
        k = k + 1;
    }
    proof {
        assert(all.take(all.len() as int) =~= all);
    }
    Some(Ok(columns))
}

/// ADD FILES: the cases of all files, one file after another.
pub fn add_files(datasets: &[&Dataset]) -> (r: Result<Dataset, String>)
    requires
        total_cases(text::views(datasets@)) <= usize::MAX,
        added(text::views(datasets@)) is Some,
    ensures
        rows::gives(r, added(text::views(datasets@))->0),
{
    if datasets.len() == 0 {
        return Ok(Dataset::new());
    }
    let at = find_union(datasets);
    let vars = copy_union(datasets, &at);
    match collect_file_columns(datasets, &vars) {
        Some(Ok(columns)) => make_table(vars, columns),
        Some(Err(e)) => Err(e),
        None => Err(String::new()),
    }
}

/// ADD FILES, where every batch has the columns of its variables.
pub fn try_add_files(datasets: &[&Dataset]) -> (r: Option<Result<Dataset, String>>)
    requires
        total_cases(text::views(datasets@)) <= usize::MAX,
    ensures
        match r {
            Some(x) => added(text::views(datasets@)) matches Some(y) && rows::gives(x, y),
            None => added(text::views(datasets@)) is None,
        },
{
    if datasets.len() > 0 {
        let at = find_union(datasets);
        let vars = copy_union(datasets, &at);
        if collect_file_columns(datasets, &vars).is_none() {
            return None;
        }
    }
    Some(add_files(datasets))
}

/// The data of a variable, filled up with nulls to a number of cases.
pub open spec fn padded(ds: DatasetView, idx: int, cases: nat) -> Option<
    Result<ColumnView, Seq<char>>,
> {
    if !rows::covered(ds, idx) {
        None
    } else {
        match batch::concatenated(rows::columns_at(ds, idx)) {
            Ok(c) => if ds.n_cases() < cases {
                Some(
                    batch::concatenated(
                        seq![
                            c,
                            batch::null_column(
                                ds.variables[idx].var_type,
                                (cases - ds.n_cases()) as nat,
                            ),
                        ],
                    ),
                )
            } else {
                Some(Ok(c))
            },
            Err(e) => Some(Err(e)),
        }
    }
}

/// The data of the variables of all files, side by side.
pub open spec fn padded_columns(dss: Seq<DatasetView>) -> Seq<
    Option<Result<ColumnView, Seq<char>>>,
> {
    Seq::new(
        union(dss).len(),
        |k: int|
            padded(dss[union(dss)[k].0 as int], union(dss)[k].1 as int, most_cases(dss)),
    )
}

/// What MATCH FILES gives without keys: the variables of all files, side by side.
/// There is no outcome where a batch lacks the column of one of its variables.
pub open spec fn matched(dss: Seq<DatasetView>) -> Option<Result<DatasetView, Seq<char>>> {
    if dss.len() == 0 {
        Some(Ok(rows::nothing()))
    } else {
        gathered_table(union_variables(dss), padded_columns(dss))
    }
}

/// Each dataset's cases can be counted.
pub open spec fn countable(dss: Seq<DatasetView>) -> bool {
    forall|d: int| 0 <= d < dss.len() ==> (#[trigger] dss[d]).n_cases() <= usize::MAX
}

/// Finds the largest number of cases.
fn find_most_cases(datasets: &[&Dataset]) -> (r: usize)
    requires
        countable(text::views(datasets@)),
    ensures
        r == most_cases(text::views(datasets@)),
{
    let ghost dss = text::views(datasets@);
    let mut most: usize = 0;
    let mut d: usize = 0;
    proof {
        assert(dss.take(0) =~= Seq::empty());
    }
    while d < datasets.len()
        invariant
            d <= datasets@.len(),
            dss == text::views(datasets@),
            countable(dss),
            most == most_cases(dss.take(d as int)),
        decreases datasets@.len() - d,
    {
        proof {
            assert(dss[d as int] == datasets@[d as int]@);
            assert(dss[d as int].n_cases() <= usize::MAX);
            assert(dss.take(d + 1).drop_last() =~= dss.take(d as int));
            assert(dss.take(d + 1).last() == dss[d as int]);
        }
        let n = datasets[d].n_cases();
        if n > most {
            most = n;
        }
        d = d + 1;
    }
    proof {
        assert(dss.take(dss.len() as int) =~= dss);
    }
    most
}

/// Gathers the data of a variable, filled up with nulls.
fn pad_column(ds: &Dataset, idx: usize, cases: usize) -> (r: Option<Result<Column, String>>)
    requires
        idx < ds@.variables.len(),
        ds@.n_cases() <= usize::MAX,
    ensures
        rows::is_outcome(r, padded(ds@, idx as int, cases as nat)),
{
    if !is_covered(ds, idx) {
        return None;
    }
    let column = match concat_column_batches(ds, idx) {
        Ok(c) => c,
        Err(e) => {
            return Some(Err(e));
        },
    };
    let n = ds.n_cases();
    if n >= cases {
        return Some(Ok(column));
    }
    let mut parts: Vec<Column> = Vec::new();
    let ghost c = column@;
    parts.push(column);
    parts.push(create_null_array(ds.variables[idx].var_type, cases - n));
    proof {
        assert(text::views(parts@) =~= seq![
            c,
            batch::null_column(ds@.variables[idx as int].var_type, (cases - n) as nat),
        ]);
    }
    Some(concat_columns(&parts))
}

/// Gathers the data of the variables of all files.
fn collect_padded_columns(datasets: &[&Dataset], at: &Vec<(usize, usize)>) -> (r: Option<
    Result<Vec<Column>, String>,
>)
    requires
        countable(text::views(datasets@)),
        at@ == union(text::views(datasets@)),
        all_exist(text::views(datasets@), at@),
    ensures
        rows::is_gathered(r, rows::gathered(padded_columns(text::views(datasets@)))),
{
    let ghost dss = text::views(datasets@);
    let ghost all = padded_columns(dss);
    let cases = find_most_cases(datasets);
    let mut columns: Vec<Column> = Vec::new();
    let mut k: usize = 0;
    proof {
        assert(all.take(0) =~= Seq::empty());
        assert(text::views(columns@) =~= Seq::empty());
    }
    while k < at.len()
        invariant
            k <= at@.len(),
            dss == text::views(datasets@),
            countable(dss),
            at@ == union(dss),
            all_exist(dss, at@),
            cases == most_cases(dss),
            all == padded_columns(dss),
            rows::gathered(all.take(k as int)) == Some(
                Ok::<Seq<ColumnView>, Seq<char>>(text::views(columns@)),
            ),
        decreases at@.len() - k,
    {
        proof {
            assert(at@[k as int].0 < dss.len());
            assert(dss[at@[k as int].0 as int] == datasets@[at@[k as int].0 as int]@);
            assert(dss[at@[k as int].0 as int].n_cases() <= usize::MAX);
            rows::lemma_gathered_next(all, k as int);
        }
        let (d, i) = at[k];
        match pad_column(datasets[d], i, cases) {
            Some(Ok(c)) => {
                columns.push(c);
            },
            Some(Err(e)) => {
                return Some(Err(e));
            },
            None => {
                return None;
            },
        }
        k = k + 1;
    }
    proof {
        assert(all.take(all.len() as int) =~= all);
    }
    Some(Ok(columns))
}

/// MATCH FILES: One-to-One
pub fn match_files_one_to_one(datasets: &[&Dataset]) -> (r: Result<Dataset, String>)
    requires
        countable(text::views(datasets@)),
        matched(text::views(datasets@)) is Some,
    ensures
        rows::gives(r, matched(text::views(datasets@))->0),
{
    if datasets.len() == 0 {
        return Ok(Dataset::new());
    }
    let at = find_union(datasets);
    let vars = copy_union(datasets, &at);
    match collect_padded_columns(datasets, &at) {
        Some(Ok(columns)) => make_table(vars, columns),
        Some(Err(e)) => Err(e),
        None => Err(String::new()),
    }
}

/// MATCH FILES without keys, where every batch has the columns of its variables.
pub fn try_match_files_one_to_one(datasets: &[&Dataset]) -> (r: Option<Result<Dataset, String>>)
    requires
        countable(text::views(datasets@)),
    ensures
        match r {
            Some(x) => matched(text::views(datasets@)) matches Some(y) && rows::gives(x, y),
            None => matched(text::views(datasets@)) is None,
        },
{
    if datasets.len() > 0 {
        let at = find_union(datasets);
        if collect_padded_columns(datasets, &at).is_none() {
            return None;
        }
    }
    Some(match_files_one_to_one(datasets))
}

} // verus!
