//! MATCH FILES by key.
use vstd::hash_map::StringHashMap;
use vstd::prelude::*;

use crate::batch;
use crate::batch::{kind_for, Cell, CellView, Column, ColumnView};
use crate::dataset::{Dataset, DatasetView};
use crate::text;
use crate::transform::files;
use crate::transform::files::find_union;
use crate::transform::rows;
use crate::transform::rows::{
    all_positions, are_usable, collect_all, get_keys, is_legible_at, make_table, name_error,
    resolve,
};
use crate::transform::select::copy_variables;
use crate::variable::{Variable, VariableView};

verus! {

broadcast use crate::text::lemma_views_push;

/// The first row with a key.
pub open spec fn first_with(
    keys: Seq<Seq<char>>,
    at: Seq<(usize, usize)>,
    key: Seq<char>,
) -> Option<(usize, usize)> {
    if rows::members(keys, at, key).len() > 0 {
        Some(rows::members(keys, at, key)[0])
    } else {
        None
    }
}

/// For each row of the primary file the first row of the lookup file with its key.
pub open spec fn partners(
    primary: DatasetView,
    lookup: DatasetView,
    by: Seq<Seq<char>>,
) -> Seq<Option<(usize, usize)>> {
    let own = rows::row_keys(primary, rows::positions(primary), rows::indices_of(primary, by));
    let keys = rows::row_keys(lookup, rows::positions(lookup), rows::indices_of(lookup, by));
    Seq::new(own.len(), |i: int| first_with(keys, rows::positions(lookup), own[i]))
}

/// The variables of one of several files.
pub open spec fn of_file(at: Seq<(usize, usize)>, d: usize) -> Seq<usize>
    decreases at.len(),
{
    if at.len() == 0 {
        Seq::empty()
    } else if at.last().0 == d {
        of_file(at.drop_last(), d).push(at.last().1)
    } else {
        of_file(at.drop_last(), d)
    }
}

/// The variables that the lookup file adds: those whose name did not come before.
pub open spec fn added_variables(primary: DatasetView, lookup: DatasetView) -> Seq<usize> {
    of_file(files::union(seq![primary, lookup]), 1)
}

/// The entries of a variable of the lookup file for the rows of the primary file.
pub open spec fn aligned(
    lookup: DatasetView,
    idx: int,
    at: Seq<Option<(usize, usize)>>,
) -> ColumnView {
    ColumnView {
        kind: batch::kind_of_type(lookup.variables[idx].var_type),
        cells: Seq::new(
            at.len(),
            |i: int|
                match at[i] {
                    Some(p) => lookup.batches[p.0 as int].columns[idx].cells[p.1 as int],
                    None => CellView::Null,
                },
        ),
    }
}

/// The entries of a variable in the partner rows can be read.
pub open spec fn partners_legible(
    lookup: DatasetView,
    idx: int,
    at: Seq<Option<(usize, usize)>>,
) -> bool {
    forall|i: int|
        0 <= i < at.len() ==> ((#[trigger] at[i]) matches Some(p) ==> lookup.legible_at(
            p.0 as int,
            p.1 as int,
            idx,
        ))
}

/// The entries of all added variables in the partner rows can be read.
pub open spec fn all_legible(
    lookup: DatasetView,
    idxs: Seq<usize>,
    at: Seq<Option<(usize, usize)>>,
) -> bool {
    forall|k: int|
        0 <= k < idxs.len() ==> partners_legible(lookup, (#[trigger] idxs[k]) as int, at)
}

/// The variables of the primary file, then the added ones.
pub open spec fn joined_variables(primary: DatasetView, lookup: DatasetView) -> Seq<VariableView> {
    let idxs = added_variables(primary, lookup);
    primary.variables + Seq::new(idxs.len(), |k: int| lookup.variables[idxs[k] as int])
}

/// The columns of the primary file, then the added ones.
pub open spec fn joined_columns(
    own: Seq<ColumnView>,
    lookup: DatasetView,
    idxs: Seq<usize>,
    at: Seq<Option<(usize, usize)>>,
) -> Seq<ColumnView> {
    own + Seq::new(idxs.len(), |k: int| aligned(lookup, idxs[k] as int, at))
}

/// What MATCH FILES gives by key. There is no outcome where data that it comes
/// to read cannot be read.
pub open spec fn joined(primary: DatasetView, lookup: DatasetView, by: Seq<Seq<char>>) -> Option<
    Result<DatasetView, Seq<char>>,
> {
    if primary.batches.len() == 0 {
        Some(Ok(rows::nothing()))
    } else {
        match (rows::first_missing(primary, by, 0), rows::first_missing(lookup, by, 0)) {
            (Some(k), _) => Some(Err("Key not found in primary: "@ + by[k])),
            (None, Some(k)) => Some(Err("Key not found in lookup: "@ + by[k])),
            (None, None) => if !rows::usable(lookup, rows::indices_of(lookup, by))
                || !rows::usable(primary, rows::indices_of(primary, by)) {
                None
            } else {
                let at = partners(primary, lookup, by);
                let idxs = added_variables(primary, lookup);
                match rows::all_columns(primary, primary.variables.len() as int) {
                    None => None,
                    Some(Err(e)) => Some(Err(e)),
                    Some(Ok(own)) => if all_legible(lookup, idxs, at) {
                        Some(
                            rows::table_of(
                                joined_variables(primary, lookup),
                                joined_columns(own, lookup, idxs, at),
                            ),
                        )
                    } else {
                        None
                    },
                }
            },
        }
    }
}

/// Finds for each key the first row with it.
fn find_partners(
    own: &Vec<String>,
    keys: &Vec<String>,
    at: &Vec<(usize, usize)>,
) -> (r: Vec<Option<(usize, usize)>>)
    requires
        keys@.len() == at@.len(),
    ensures
        r@ == Seq::new(
            own@.len(),
            |i: int| first_with(text::views(keys@), at@, text::views(own@)[i]),
        ),
{
    let ghost kv = text::views(keys@);
    let ghost ov = text::views(own@);
    let mut index: StringHashMap<usize> = StringHashMap::new();
    let mut i: usize = 0;
    proof {
        assert(kv.take(0) =~= Seq::empty());
    }
    while i < keys.len()
        invariant
            i <= keys@.len(),
            keys@.len() == at@.len(),
            kv == text::views(keys@),
            forall|k: Seq<char>| #[trigger]
                index@.contains_key(k) <==> rows::members(kv.take(i as int), at@, k).len() > 0,
            forall|k: Seq<char>| #[trigger]
                index@.contains_key(k) ==> index@[k] < at@.len() && at@[index@[k] as int]
                    == rows::members(kv.take(i as int), at@, k)[0],
        decreases keys@.len() - i,
    {
        let ghost before = index@;
        let ghost now = kv.take(i as int);
        let ghost next = kv.take(i + 1);
        proof {
            assert(next.drop_last() =~= now);
            assert(next.last() == kv[i as int]);
        }
        if index.get(keys[i].as_str()).is_none() {
            index.insert(keys[i].clone(), i);
        }
        proof {
            assert forall|k: Seq<char>| #[trigger]
                index@.contains_key(k) <==> rows::members(next, at@, k).len() > 0 by {
                assert(before.contains_key(k) <==> rows::members(now, at@, k).len() > 0);
            }
            assert forall|k: Seq<char>| #[trigger]
                index@.contains_key(k) implies index@[k] < at@.len() && at@[index@[k] as int]
                == rows::members(next, at@, k)[0] by {
                assert(before.contains_key(k) <==> rows::members(now, at@, k).len() > 0);
            }
        }
        i = i + 1;
    }
    proof {
        assert(kv.take(kv.len() as int) =~= kv);
    }
    let ghost all = Seq::new(ov.len(), |i: int| first_with(kv, at@, ov[i]));
    let mut out: Vec<Option<(usize, usize)>> = Vec::new();
    let mut i: usize = 0;
    while i < own.len()
        invariant
            i <= own@.len(),
            ov == text::views(own@),
            all == Seq::new(ov.len(), |i: int| first_with(kv, at@, ov[i])),
            forall|k: Seq<char>| #[trigger]
                index@.contains_key(k) <==> rows::members(kv, at@, k).len() > 0,
            forall|k: Seq<char>| #[trigger]
                index@.contains_key(k) ==> index@[k] < at@.len() && at@[index@[k] as int]
                    == rows::members(kv, at@, k)[0],
            out@ =~= all.take(i as int),
        decreases own@.len() - i,
    {
        proof {
            assert(all[i as int] == first_with(kv, at@, own@[i as int]@));
        }
        let found = match index.get(own[i].as_str()) {
            Some(k) => Some(at[*k]),
            None => None,
        };
        out.push(found);
        i = i + 1;
    }
    proof {
        assert(all.take(ov.len() as int) =~= all);
    }
    out
}

/// Picks the variables of one of several files.
fn pick_file(at: &Vec<(usize, usize)>, d: usize) -> (r: Vec<usize>)
    ensures
        r@ == of_file(at@, d),
        forall|k: int|
            0 <= k < r@.len() ==> exists|j: int| 0 <= j < at@.len() && at@[j] == (d, #[trigger] r@[k]),
{
    let mut out: Vec<usize> = Vec::new();
    let mut i: usize = 0;
    proof {
        assert(at@.take(0) =~= Seq::empty());
    }
    while i < at.len()
        invariant
            i <= at@.len(),
            out@ == of_file(at@.take(i as int), d),
            forall|k: int|
                0 <= k < out@.len() ==> exists|j: int|
                    0 <= j < at@.len() && at@[j] == (d, #[trigger] out@[k]),
        decreases at@.len() - i,
    {
        proof {
            assert(at@.take(i + 1).drop_last() =~= at@.take(i as int));
            assert(at@.take(i + 1).last() == at@[i as int]);
        }
        if at[i].0 == d {
            let ghost before = out@;
            out.push(at[i].1);
            proof {
                assert forall|k: int| 0 <= k < out@.len() implies exists|j: int|
                    0 <= j < at@.len() && at@[j] == (d, #[trigger] out@[k]) by {
                    if k < before.len() {
                        assert(out@[k] == before[k]);
                    } else {
                        assert(at@[i as int] == (d, out@[k]));
                    }
                }
            }
        }
        i = i + 1;
    }
    proof {
        assert(at@.take(at@.len() as int) =~= at@);
    }
    out
}

/// Lists the variables that the lookup file adds.
fn find_added(primary: &Dataset, lookup: &Dataset) -> (r: Vec<usize>)
    ensures
        r@ == added_variables(primary@, lookup@),
        forall|k: int| 0 <= k < r@.len() ==> (#[trigger] r@[k]) < lookup@.variables.len(),
{
    let mut both: Vec<&Dataset> = Vec::new();
    both.push(primary);
    both.push(lookup);
    let at = find_union(both.as_slice());
    let ghost dss = seq![primary@, lookup@];
    proof {
        assert(text::views(both@) =~= dss);
    }
    let out = pick_file(&at, 1);
    proof {
        assert forall|k: int| 0 <= k < out@.len() implies (#[trigger] out@[k])
            < lookup@.variables.len() by {
            let j = choose|j: int| 0 <= j < at@.len() && at@[j] == (1usize, out@[k]);
            assert(at@[j].1 < dss[at@[j].0 as int].variables.len());
        }
    }
    out
}

/// Reads the entries of a variable in the partner rows, where they can be read.
fn align(lookup: &Dataset, idx: usize, at: &Vec<Option<(usize, usize)>>) -> (r: Option<Column>)
    requires
        lookup@.wf(),
        idx < lookup@.variables.len(),
        forall|i: int|
            0 <= i < at@.len() ==> ((#[trigger] at@[i]) matches Some(p) ==> rows::in_range(
                lookup@,
                p,
            )),
    ensures
        match r {
            Some(c) => partners_legible(lookup@, idx as int, at@) && c@ == aligned(
                lookup@,
                idx as int,
                at@,
            ),
            None => !partners_legible(lookup@, idx as int, at@),
        },
{
    let ghost lv = lookup@;
    let ghost all = aligned(lv, idx as int, at@);
    let mut cells: Vec<Cell> = Vec::new();
    let mut i: usize = 0;
    while i < at.len()
        invariant
            i <= at@.len(),
            lv == lookup@,
            lv.wf(),
            idx < lv.variables.len(),
            forall|i: int|
                0 <= i < at@.len() ==> ((#[trigger] at@[i]) matches Some(p) ==> rows::in_range(
                    lv,
                    p,
                )),
            forall|k: int|
                0 <= k < i ==> ((#[trigger] at@[k]) matches Some(p) ==> lv.legible_at(
                    p.0 as int,
                    p.1 as int,
                    idx as int,
                )),
            all == aligned(lv, idx as int, at@),
            text::views(cells@) =~= all.cells.take(i as int),
        decreases at@.len() - i,
    {
        match at[i] {
            Some(p) => {
                proof {
                    assert(at@[i as int] == Some(p));
                    assert(rows::in_range(lv, p));
                }
                if !is_legible_at(lookup, p, idx) {
                    return None;
                }
                proof {
                    assert(lv.batches[p.0 as int].wf());
                    assert(lv.batches[p.0 as int].columns[idx as int].cells.len()
                        == lv.batches[p.0 as int].num_rows);
                }
                cells.push(lookup.batches[p.0].columns[idx].cells[p.1].clone());
            },
            None => {
                cells.push(Cell::Null);
            },
        }
        i = i + 1;
    }
    proof {
        assert(all.cells.take(at@.len() as int) =~= all.cells);
    }
    Some(Column { kind: kind_for(lookup.variables[idx].var_type), cells })
}

/// Reads the entries of the added variables in the partner rows, where they can
/// be read.
fn align_all(lookup: &Dataset, idxs: &Vec<usize>, at: &Vec<Option<(usize, usize)>>) -> (r: Option<
    Vec<Column>,
>)
    requires
        lookup@.wf(),
        forall|k: int| 0 <= k < idxs@.len() ==> (#[trigger] idxs@[k]) < lookup@.variables.len(),
        forall|i: int|
            0 <= i < at@.len() ==> ((#[trigger] at@[i]) matches Some(p) ==> rows::in_range(
                lookup@,
                p,
            )),
    ensures
        match r {
            Some(c) => all_legible(lookup@, idxs@, at@) && text::views(c@) == Seq::new(
                idxs@.len(),
                |k: int| aligned(lookup@, idxs@[k] as int, at@),
            ),
            None => !all_legible(lookup@, idxs@, at@),
        },
{
    let ghost all = Seq::new(idxs@.len(), |k: int| aligned(lookup@, idxs@[k] as int, at@));
    let mut columns: Vec<Column> = Vec::new();
    let mut k: usize = 0;
    while k < idxs.len()
        invariant
            k <= idxs@.len(),
            lookup@.wf(),
            forall|k: int| 0 <= k < idxs@.len() ==> (#[trigger] idxs@[k]) < lookup@.variables.len(),
            forall|i: int|
                0 <= i < at@.len() ==> ((#[trigger] at@[i]) matches Some(p) ==> rows::in_range(
                    lookup@,
                    p,
                )),
            forall|j: int|
                0 <= j < k ==> partners_legible(lookup@, (#[trigger] idxs@[j]) as int, at@),
            all == Seq::new(idxs@.len(), |k: int| aligned(lookup@, idxs@[k] as int, at@)),
            text::views(columns@) =~= all.take(k as int),
        decreases idxs@.len() - k,
    {
        proof {
            assert(idxs@[k as int] < lookup@.variables.len());
        }
        match align(lookup, idxs[k], at) {
            Some(c) => {
                columns.push(c);
            },
            None => {
                proof {
                    assert(!partners_legible(lookup@, idxs@[k as int] as int, at@));
                }
                return None;
            },
        }
        k = k + 1;
    }
    proof {
        assert(all.take(all.len() as int) =~= all);
    }
    Some(columns)
}

/// Pairs the rows of the files by their keys.
fn match_rows(primary: &Dataset, lookup: &Dataset, pidx: &Vec<usize>, lidx: &Vec<usize>) -> (r: Vec<
    Option<(usize, usize)>,
>)
    requires
        primary@.wf(),
        lookup@.wf(),
        rows::usable(primary@, pidx@),
        rows::usable(lookup@, lidx@),
    ensures
        r@ == Seq::new(
            rows::positions(primary@).len(),
            |i: int|
                first_with(
                    rows::row_keys(lookup@, rows::positions(lookup@), lidx@),
                    rows::positions(lookup@),
                    rows::row_keys(primary@, rows::positions(primary@), pidx@)[i],
                ),
        ),
        forall|i: int|
            0 <= i < r@.len() ==> ((#[trigger] r@[i]) matches Some(p) ==> rows::in_range(
                lookup@,
                p,
            )),
{
    let lat = all_positions(lookup);
    let lkeys = get_keys(lookup, &lat, lidx);
    let pat = all_positions(primary);
    let pkeys = get_keys(primary, &pat, pidx);
    let ghost kv = text::views(lkeys@);
    let ghost ov = text::views(pkeys@);
    proof {
        assert(kv.len() == lat@.len());
        assert(ov.len() == pat@.len());
    }
    let out = find_partners(&pkeys, &lkeys, &lat);
    proof {
        assert forall|i: int| 0 <= i < out@.len() implies ((#[trigger] out@[i]) matches Some(p)
            ==> rows::in_range(lookup@, p)) by {
            rows::law_members(kv, lat@, ov[i]);
            let m = rows::members(kv, lat@, ov[i]);
            if m.len() > 0 {
                let j = choose|j: int|
                    0 <= j < kv.len() && (#[trigger] kv[j]) == ov[i] && lat@[j] == m[0];
                assert(rows::in_range(lookup@, lat@[j]));
            }
        }
    }
    out
}

fn run_join(primary: &Dataset, lookup: &Dataset, by_vars: &[String]) -> (r: Option<
    Result<(Vec<Variable>, Vec<Column>), String>,
>)
    requires
        primary@.wf(),
        lookup@.wf(),
        primary@.batches.len() > 0,
    ensures
        match r {
            Some(Ok((vars, columns))) => joined(primary@, lookup@, text::views(by_vars@)) == Some(
                rows::table_of(text::views(vars@), text::views(columns@)),
            ),
            Some(Err(e)) => joined(primary@, lookup@, text::views(by_vars@)) == Some(
                Err::<DatasetView, Seq<char>>(e@),
            ),
            None => joined(primary@, lookup@, text::views(by_vars@)) is None,
        },
{
    let ghost by = text::views(by_vars@);
    let pidx = match resolve(primary, by_vars) {
        Ok(v) => v,
        Err(k) => {
            return Some(Err(name_error("Key not found in primary: ", by_vars[k].as_str())));
        },
    };
    let lidx = match resolve(lookup, by_vars) {
        Ok(v) => v,
        Err(k) => {
            return Some(Err(name_error("Key not found in lookup: ", by_vars[k].as_str())));
        },
    };
    if !are_usable(lookup, &lidx) || !are_usable(primary, &pidx) {
        return None;
    }
    let at = match_rows(primary, lookup, &pidx, &lidx);
    proof {
        assert(at@ =~= partners(primary@, lookup@, by));
    }
    let mut columns = match collect_all(primary) {
        Some(Ok(c)) => c,
        Some(Err(e)) => {
            return Some(Err(e));
        },
        None => {
            return None;
        },
    };
    let ghost own = text::views(columns@);
    let idxs = find_added(primary, lookup);
    let mut more = match align_all(lookup, &idxs, &at) {
        Some(c) => c,
        None => {
            return None;
        },
    };
    let ghost mv = text::views(more@);
    columns.append(&mut more);
    proof {
        assert(text::views(columns@) =~= joined_columns(own, lookup@, idxs@, at@));
    }
    let mut vars = copy_variables(&primary.variables);
    let ghost all = joined_variables(primary@, lookup@);
    let mut k: usize = 0;
    while k < idxs.len()
        invariant
            k <= idxs@.len(),
            idxs@ == added_variables(primary@, lookup@),
            forall|k: int| 0 <= k < idxs@.len() ==> (#[trigger] idxs@[k]) < lookup@.variables.len(),
            all == joined_variables(primary@, lookup@),
            text::views(vars@) =~= all.take(primary@.variables.len() + k),
        decreases idxs@.len() - k,
    {
        proof {
            assert(idxs@[k as int] < lookup@.variables.len());
        }
        vars.push(lookup.variables[idxs[k]].clone());
        k = k + 1;
    }
    proof {
        assert(all.take(all.len() as int) =~= all);
    }
    Some(Ok((vars, columns)))
}

/// MATCH FILES: Key Lookup Join
pub fn match_files_by_key(primary: &Dataset, lookup: &Dataset, by_vars: &[String]) -> (r: Result<
    Dataset,
    String,
>)
    requires
        primary@.wf(),
        lookup@.wf(),
        joined(primary@, lookup@, text::views(by_vars@)) is Some,
    ensures
        rows::gives(r, joined(primary@, lookup@, text::views(by_vars@))->0),
{
    if primary.batches.len() == 0 {
        return Ok(Dataset::new());
    }
    match run_join(primary, lookup, by_vars) {
        Some(Ok((vars, columns))) => make_table(vars, columns),
        Some(Err(e)) => Err(e),
        None => Err(String::new()),
    }
}

/// MATCH FILES by key, where the data can be read.
pub fn try_match_files_by_key(primary: &Dataset, lookup: &Dataset, by_vars: &[String]) -> (r: Option<
    Result<Dataset, String>,
>)
    requires
        primary@.wf(),
        lookup@.wf(),
    ensures
        match r {
            Some(x) => joined(primary@, lookup@, text::views(by_vars@)) matches Some(y)
                && rows::gives(x, y),
            None => joined(primary@, lookup@, text::views(by_vars@)) is None,
        },
{
    if primary.batches.len() > 0 && run_join(primary, lookup, by_vars).is_none() {
        return None;
    }
    Some(match_files_by_key(primary, lookup, by_vars))
}

} // verus!
