//! Rows of a dataset: their positions, keys and groups, and columns of values.
use vstd::hash_map::StringHashMap;
use vstd::prelude::*;

use crate::batch;
use crate::batch::{
    concat_columns, kind_for, Batch, BatchView, Cell, CellView, Column, ColumnKind, ColumnView,
    Field,
};
use crate::dataset;
use crate::dataset::{read_cell, Dataset, DatasetView};
use crate::text;
use crate::text::{decimal_of, join_two, len_of};
use crate::value::{Value, ValueView};
use crate::variable::{Variable, VariableType, VariableView};

verus! {

broadcast use crate::text::lemma_views_push;

/// The positions of the rows of the first `n` batches: batch and row in it.
pub open spec fn positions_in(batches: Seq<BatchView>, n: int) -> Seq<(usize, usize)>
    decreases n,
{
    if n <= 0 {
        Seq::empty()
    } else {
        positions_in(batches, n - 1) + Seq::new(
            batches[n - 1].num_rows as nat,
            |r: int| ((n - 1) as usize, r as usize),
        )
    }
}

/// The positions of all rows.
pub open spec fn positions(ds: DatasetView) -> Seq<(usize, usize)> {
    positions_in(ds.batches, ds.batches.len() as int)
}

/// Positions are in range.
pub open spec fn in_range(ds: DatasetView, p: (usize, usize)) -> bool {
    p.0 < ds.batches.len() && p.1 < ds.batches[p.0 as int].num_rows
}

pub proof fn lemma_positions(ds: DatasetView, n: int)
    requires
        0 <= n <= ds.batches.len(),
        ds.batches.len() <= usize::MAX,
    ensures
        positions_in(ds.batches, n).len() == dataset::rows_in(ds.batches.take(n)),
        forall|i: int|
            0 <= i < positions_in(ds.batches, n).len() ==> in_range(
                ds,
                #[trigger] positions_in(ds.batches, n)[i],
            ),
    decreases n,
{
    if n > 0 {
        lemma_positions(ds, n - 1);
        dataset::lemma_rows_split(ds.batches, n - 1);
    } else {
        assert(ds.batches.take(0) =~= Seq::empty());
    }
}

/// Lists the positions of all rows.
pub fn all_positions(ds: &Dataset) -> (r: Vec<(usize, usize)>)
    ensures
        r@ == positions(ds@),
        forall|i: int| 0 <= i < r@.len() ==> in_range(ds@, #[trigger] r@[i]),
{
    let mut out: Vec<(usize, usize)> = Vec::new();
    let mut b: usize = 0;
    while b < ds.batches.len()
        invariant
            b <= ds.batches.len(),
            out@ == positions_in(ds@.batches, b as int),
        decreases ds.batches.len() - b,
    {
        let n = ds.batches[b].num_rows;
        let ghost before = out@;
        let mut r: usize = 0;
        while r < n
            invariant
                r <= n,
                out@ =~= before + Seq::new(r as nat, |k: int| (b, k as usize)),
            decreases n - r,
        {
            out.push((b, r));
            r = r + 1;
        }
        proof {
            assert(out@ =~= positions_in(ds@.batches, b + 1));
        }
        b = b + 1;
    }
    proof {
        lemma_positions(ds@, ds@.batches.len() as int);
    }
    out
}

proof fn lemma_position_of_row(ds: DatasetView, b: int, r: int, n: int)
    requires
        0 <= b < n <= ds.batches.len(),
        ds.batches.len() <= usize::MAX,
        0 <= r < ds.batches[b].num_rows,
    ensures
        dataset::rows_in(ds.batches.take(b)) + r < positions_in(ds.batches, n).len(),
        positions_in(ds.batches, n)[dataset::rows_in(ds.batches.take(b)) + r] == (
            b as usize,
            r as usize,
        ),
    decreases n,
{
    lemma_positions(ds, n - 1);
    if b < n - 1 {
        lemma_position_of_row(ds, b, r, n - 1);
    }
}

/// Resolves a flat row index to the batch and the row in it.
pub fn get_batch_row_index(ds: &Dataset, row_idx: usize) -> (r: (usize, usize))
    requires
        row_idx < ds@.n_cases(),
    ensures
        r == positions(ds@)[row_idx as int],
        in_range(ds@, r),
{
    let ghost bv = ds@.batches;
    let mut rest: usize = row_idx;
    let mut b: usize = 0;
    proof {
        assert(bv.take(0) =~= Seq::empty());
        assert(bv.take(bv.len() as int) =~= bv);
        assert(bv.len() == ds.batches.len());
    }
    while b < ds.batches.len() && rest >= ds.batches[b].num_rows
        invariant
            b <= ds.batches.len(),
            bv == ds@.batches,
            bv.len() == ds.batches.len(),
            row_idx < dataset::rows_in(bv),
            dataset::rows_in(bv.take(b as int)) + rest == row_idx,
        decreases ds.batches.len() - b,
    {
        proof {
            dataset::lemma_rows_split(bv, b as int);
        }
        rest = rest - ds.batches[b].num_rows;
        b = b + 1;
    }
    proof {
        if b == bv.len() {
            assert(bv.take(b as int) =~= bv);
        }
        lemma_position_of_row(ds@, b as int, rest as int, bv.len() as int);
    }
    (b, rest)
}

/// The value of a variable at a position.
pub open spec fn value_at(ds: DatasetView, p: (usize, usize), idx: int) -> ValueView {
    ds.value_at(p.0 as int, p.1 as int, idx)
}

/// Reads the value of a variable in a row.
pub fn get_cell_value(ds: &Dataset, batch_idx: usize, row_idx: usize, var_idx: usize) -> (r: Value)
    requires
        ds@.wf(),
        var_idx < ds@.variables.len(),
        batch_idx < ds@.batches.len(),
        row_idx < ds@.batches[batch_idx as int].num_rows,
        ds@.legible_at(batch_idx as int, row_idx as int, var_idx as int),
    ensures
        r@ == ds@.value_at(batch_idx as int, row_idx as int, var_idx as int),
{
    proof {
        assert(ds@.batches[batch_idx as int].wf());
        assert(ds@.batches[batch_idx as int].columns[var_idx as int].cells.len()
            == ds@.batches[batch_idx as int].num_rows);
    }
    read_cell(&ds.variables[var_idx], &ds.batches[batch_idx].columns[var_idx].cells[row_idx])
}

fn value_in_row(ds: &Dataset, p: (usize, usize), idx: usize) -> (r: Value)
    requires
        ds@.wf(),
        idx < ds@.variables.len(),
        in_range(ds@, p),
        ds@.readable(idx as int),
    ensures
        r@ == value_at(ds@, p, idx as int),
{
    proof {
        assert(ds@.legible_at(p.0 as int, p.1 as int, idx as int));
    }
    get_cell_value(ds, p.0, p.1, idx)
}

/// The values of a variable at several positions.
pub open spec fn values_at(ds: DatasetView, rows: Seq<(usize, usize)>, idx: int) -> Seq<
    ValueView,
> {
    Seq::new(rows.len(), |i: int| value_at(ds, rows[i], idx))
}

/// Reads the values of a variable at several positions.
pub fn get_values(ds: &Dataset, rows: &Vec<(usize, usize)>, idx: usize) -> (r: Vec<Value>)
    requires
        ds@.wf(),
        idx < ds@.variables.len(),
        forall|i: int| 0 <= i < rows@.len() ==> in_range(ds@, #[trigger] rows@[i]),
        ds@.readable(idx as int),
    ensures
        text::views(r@) == values_at(ds@, rows@, idx as int),
{
    let mut out: Vec<Value> = Vec::new();
    let mut i: usize = 0;
    while i < rows.len()
        invariant
            i <= rows.len(),
            ds@.wf(),
            idx < ds@.variables.len(),
            forall|i: int| 0 <= i < rows@.len() ==> in_range(ds@, #[trigger] rows@[i]),
            ds@.readable(idx as int),
            text::views(out@) =~= values_at(ds@, rows@, idx as int).take(i as int),
        decreases rows.len() - i,
    {
        proof {
            assert(in_range(ds@, rows@[i as int]));
        }
        out.push(value_in_row(ds, rows[i], idx));
        i = i + 1;
    }
    proof {
        assert(values_at(ds@, rows@, idx as int).take(rows@.len() as int) =~= values_at(
            ds@,
            rows@,
            idx as int,
        ));
    }
    out
}

/// A value as part of a key: numbers by their bits, and texts as they are. A text
/// that holds a comma may read like several values.
pub open spec fn key_part(v: ValueView) -> Seq<char> {
    match v {
        ValueView::Numeric(n) => "N:"@ + text::decimal(n.bits as nat) + ","@,
        ValueView::String(s) => "S:"@ + s + ","@,
        ValueView::SystemMissing => "M,"@,
    }
}

/// The key of a row: its values of several variables.
pub open spec fn row_key(ds: DatasetView, p: (usize, usize), idxs: Seq<usize>) -> Seq<char>
    decreases idxs.len(),
{
    if idxs.len() == 0 {
        Seq::empty()
    } else {
        row_key(ds, p, idxs.drop_last()) + key_part(value_at(ds, p, idxs.last() as int))
    }
}

/// The keys of several rows.
pub open spec fn row_keys(ds: DatasetView, rows: Seq<(usize, usize)>, idxs: Seq<usize>) -> Seq<
    Seq<char>,
> {
    Seq::new(rows.len(), |i: int| row_key(ds, rows[i], idxs))
}

/// Variables that can be used: they exist, and their entries are legible.
pub open spec fn usable(ds: DatasetView, idxs: Seq<usize>) -> bool {
    forall|i: int|
        0 <= i < idxs.len() ==> (#[trigger] idxs[i]) < ds.variables.len() && ds.readable(
            idxs[i] as int,
        )
}

fn key_of_value(v: &Value) -> (r: String)
    ensures
        r@ == key_part(v@),
{
    match v {
        Value::Numeric(n) => {
            let d = decimal_of(n.bits);
            let mut k = join_two("N:", d.as_str());
            k.append(",");
            k
        },
        Value::String(s) => {
            let mut k = join_two("S:", s.as_str());
            k.append(",");
            k
        },
        Value::SystemMissing => "M,".to_owned(),
    }
}

/// Makes the key of a row.
pub fn get_group_key(ds: &Dataset, p: (usize, usize), idxs: &Vec<usize>) -> (r: String)
    requires
        ds@.wf(),
        in_range(ds@, p),
        usable(ds@, idxs@),
    ensures
        r@ == row_key(ds@, p, idxs@),
{
    let mut key = String::new();
    let mut i: usize = 0;
    proof {
        assert(idxs@.take(0) =~= Seq::empty());
        assert(key@ =~= row_key(ds@, p, idxs@.take(0)));
    }
    while i < idxs.len()
        invariant
            i <= idxs.len(),
            ds@.wf(),
            in_range(ds@, p),
            usable(ds@, idxs@),
            key@ == row_key(ds@, p, idxs@.take(i as int)),
        decreases idxs.len() - i,
    {
        proof {
            assert(idxs@[i as int] < ds@.variables.len());
        }
        let v = value_in_row(ds, p, idxs[i]);
        let part = key_of_value(&v);
        key.append(part.as_str());
        proof {
            assert(idxs@.take(i + 1).drop_last() =~= idxs@.take(i as int));
        }
        i = i + 1;
    }
    proof {
        assert(idxs@.take(idxs@.len() as int) =~= idxs@);
    }
    key
}

/// Makes the keys of several rows.
pub fn get_keys(ds: &Dataset, rows: &Vec<(usize, usize)>, idxs: &Vec<usize>) -> (r: Vec<String>)
    requires
        ds@.wf(),
        forall|i: int| 0 <= i < rows@.len() ==> in_range(ds@, #[trigger] rows@[i]),
        usable(ds@, idxs@),
    ensures
        text::views(r@) == row_keys(ds@, rows@, idxs@),
{
    let mut out: Vec<String> = Vec::new();
    let mut i: usize = 0;
    while i < rows.len()
        invariant
            i <= rows.len(),
            ds@.wf(),
            forall|i: int| 0 <= i < rows@.len() ==> in_range(ds@, #[trigger] rows@[i]),
            usable(ds@, idxs@),
            text::views(out@) =~= row_keys(ds@, rows@, idxs@).take(i as int),
        decreases rows.len() - i,
    {
        proof {
            assert(in_range(ds@, rows@[i as int]));
        }
        out.push(get_group_key(ds, rows[i], idxs));
        i = i + 1;
    }
    proof {
        assert(row_keys(ds@, rows@, idxs@).take(rows@.len() as int) =~= row_keys(
            ds@,
            rows@,
            idxs@,
        ));
    }
    out
}

/// The different keys, in the order in which each comes first.
pub open spec fn distinct(keys: Seq<Seq<char>>) -> Seq<Seq<char>>
    decreases keys.len(),
{
    if keys.len() == 0 {
        Seq::empty()
    } else {
        let before = distinct(keys.drop_last());
        if before.contains(keys.last()) {
            before
        } else {
            before.push(keys.last())
        }
    }
}

/// The rows with a key, in order.
pub open spec fn members(
    keys: Seq<Seq<char>>,
    rows: Seq<(usize, usize)>,
    key: Seq<char>,
) -> Seq<(usize, usize)>
    decreases keys.len(),
{
    if keys.len() == 0 {
        Seq::empty()
    } else {
        let before = members(keys.drop_last(), rows, key);
        if keys.last() == key {
            before.push(rows[keys.len() - 1])
        } else {
            before
        }
    }
}

/// The groups of rows with one key, in the order of the keys.
pub open spec fn groups(keys: Seq<Seq<char>>, rows: Seq<(usize, usize)>) -> Seq<
    Seq<(usize, usize)>,
> {
    Seq::new(distinct(keys).len(), |g: int| members(keys, rows, distinct(keys)[g]))
}

/// Each key stands among the different ones once, and the others do not.
pub proof fn law_distinct(keys: Seq<Seq<char>>)
    ensures
        distinct(keys).no_duplicates(),
        forall|k: Seq<char>| #[trigger] distinct(keys).contains(k) <==> keys.contains(k),
    decreases keys.len(),
{
    let d = distinct(keys);
    if keys.len() > 0 {
        law_distinct(keys.drop_last());
        let before = distinct(keys.drop_last());
        let last = keys.last();
        assert(keys =~= keys.drop_last().push(last));
        assert forall|k: Seq<char>| #[trigger] d.contains(k) <==> keys.contains(k) by {
            assert(before.contains(k) <==> keys.drop_last().contains(k));
            if d.contains(k) {
                let i = choose|i: int| 0 <= i < d.len() && d[i] == k;
                if i < before.len() {
                    assert(before[i] == k);
                    let j = choose|j: int|
                        0 <= j < keys.drop_last().len() && keys.drop_last()[j] == k;
                    assert(keys[j] == k);
                } else {
                    assert(keys[keys.len() - 1] == k);
                }
            }
            if keys.contains(k) {
                let j = choose|j: int| 0 <= j < keys.len() && keys[j] == k;
                if j < keys.len() - 1 {
                    assert(keys.drop_last()[j] == k);
                    let i = choose|i: int| 0 <= i < before.len() && before[i] == k;
                    assert(d[i] == k);
                } else if before.contains(last) {
                    let i = choose|i: int| 0 <= i < before.len() && before[i] == k;
                    assert(d[i] == k);
                } else {
                    assert(d[before.len() as int] == k);
                }
            }
        }
    }
}

/// A row is in the group of its key, and in no other; a group is not empty.
pub proof fn law_members(
    keys: Seq<Seq<char>>,
    rows: Seq<(usize, usize)>,
    key: Seq<char>,
)
    requires
        keys.len() <= rows.len(),
    ensures
        members(keys, rows, key).len() > 0 <==> keys.contains(key),
        forall|m: int|
            0 <= m < members(keys, rows, key).len() ==> exists|i: int|
                0 <= i < keys.len() && (#[trigger] keys[i]) == key && rows[i]
                    == #[trigger] members(keys, rows, key)[m],
        forall|i: int|
            0 <= i < keys.len() && (#[trigger] keys[i]) == key ==> members(
                keys,
                rows,
                key,
            ).contains(rows[i]),
    decreases keys.len(),
{
    let all = members(keys, rows, key);
    if keys.len() > 0 {
        let before = members(keys.drop_last(), rows, key);
        law_members(keys.drop_last(), rows, key);
        assert forall|m: int| 0 <= m < all.len() implies exists|i: int|
            0 <= i < keys.len() && (#[trigger] keys[i]) == key && rows[i] == #[trigger] all[m] by {
            if m < before.len() {
                assert(all[m] == before[m]);
                let i = choose|i: int|
                    0 <= i < keys.drop_last().len() && (#[trigger] keys.drop_last()[i]) == key
                        && rows[i] == before[m];
                assert(keys[i] == key && rows[i] == all[m]);
            } else {
                assert(keys[keys.len() - 1] == key && rows[keys.len() - 1] == all[m]);
            }
        }
        assert forall|i: int| 0 <= i < keys.len() && (#[trigger] keys[i]) == key implies all.contains(
            rows[i],
        ) by {
            if i < keys.len() - 1 {
                assert(keys.drop_last()[i] == key);
                let m = choose|m: int| 0 <= m < before.len() && before[m] == rows[i];
                assert(all[m] == rows[i]);
            } else {
                assert(all[before.len() as int] == rows[i]);
            }
        }
        if keys.contains(key) {
            let i = choose|i: int| 0 <= i < keys.len() && keys[i] == key;
            assert(all.contains(rows[i]));
        }
        if all.len() > 0 {
            assert(all[0] == all[0]);
            let i = choose|i: int|
                0 <= i < keys.len() && (#[trigger] keys[i]) == key && rows[i] == all[0];
            assert(keys.contains(key));
        }
    }
}

/// The contents of lists of positions.
pub open spec fn lists(v: Seq<Vec<(usize, usize)>>) -> Seq<Seq<(usize, usize)>> {
    Seq::new(v.len(), |i: int| v[i]@)
}

/// Groups rows by their keys.
pub fn group_rows(keys: &Vec<String>, rows: &Vec<(usize, usize)>) -> (r: Vec<
    Vec<(usize, usize)>,
>)
    requires
        keys@.len() == rows@.len(),
    ensures
        lists(r@) == groups(text::views(keys@), rows@),
{
    let ghost kv = text::views(keys@);
    let mut out: Vec<Vec<(usize, usize)>> = Vec::new();
    let mut index: StringHashMap<usize> = StringHashMap::new();
    let mut i: usize = 0;
    proof {
        assert(kv.take(0) =~= Seq::empty());
        assert(lists(out@) =~= groups(kv.take(0), rows@));
    }
    while i < keys.len()
        invariant
            i <= keys.len(),
            keys@.len() == rows@.len(),
            kv == text::views(keys@),
            lists(out@) == groups(kv.take(i as int), rows@),
            forall|k: Seq<char>| #[trigger]
                index@.contains_key(k) <==> distinct(kv.take(i as int)).contains(k),
            forall|k: Seq<char>| #[trigger]
                index@.contains_key(k) ==> index@[k] < out@.len() && distinct(
                    kv.take(i as int),
                )[index@[k] as int] == k,
        decreases keys.len() - i,
    {
        let ghost now = kv.take(i as int);
        let ghost next = kv.take(i + 1);
        let ghost key = kv[i as int];
        let ghost d = distinct(now);
        let ghost before = out@;
        proof {
            assert(next.drop_last() =~= now);
            assert(next.last() == key);
            law_distinct(now);
            assert(lists(before).len() == d.len());
        }
        let found = match index.get(keys[i].as_str()) {
            Some(g) => Some(*g),
            None => None,
        };
        match found {
            Some(g) => {
                let mut list: Vec<(usize, usize)> = Vec::new();
                std::mem::swap(&mut list, &mut out[g]);
                list.push(rows[i]);
                std::mem::swap(&mut list, &mut out[g]);
                proof {
                    assert(distinct(next) == d);
                    assert(lists(out@) =~= groups(next, rows@)) by {
                        assert forall|j: int| 0 <= j < d.len() implies #[trigger] lists(out@)[j]
                            == groups(next, rows@)[j] by {
                            assert(lists(before)[j] == groups(now, rows@)[j]);
                            if j == g {
                                assert(d[j] == key);
                                assert(out@[j]@ == before[j]@.push(rows@[i as int]));
                            } else {
                                assert(out@[j] == before[j]);
                                assert(d[j] != key);
                            }
                        }
                    }
                }
            },
            None => {
                let g = out.len();
                let mut list: Vec<(usize, usize)> = Vec::new();
                list.push(rows[i]);
                out.push(list);
                let ghost old_index = index@;
                index.insert(keys[i].clone(), g);
                proof {
                    assert(!d.contains(key));
                    assert(distinct(next) == d.push(key));
                    lemma_no_members(now, rows@, key);
                    assert(lists(out@) =~= groups(next, rows@)) by {
                        assert forall|j: int| 0 <= j < d.len() + 1 implies #[trigger] lists(
                            out@,
                        )[j] == groups(next, rows@)[j] by {
                            if j < d.len() {
                                assert(lists(before)[j] == groups(now, rows@)[j]);
                                assert(out@[j] == before[j]);
                                assert(d.contains(d[j]));
                                assert(d[j] != key);
                            } else {
                                assert(out@[j]@ =~= seq![rows@[i as int]]);
                                assert(members(next, rows@, key) =~= seq![rows@[i as int]]);
                            }
                        }
                    }
                    let e = distinct(next);
                    assert forall|k: Seq<char>| #[trigger]
                        index@.contains_key(k) <==> e.contains(k) by {
                        if k == key {
                            assert(e[d.len() as int] == key);
                        } else {
                            assert(old_index.contains_key(k) <==> d.contains(k));
                            if e.contains(k) {
                                let j = choose|j: int| 0 <= j < e.len() && e[j] == k;
                                assert(d[j] == k);
                            }
                            if d.contains(k) {
                                let j = choose|j: int| 0 <= j < d.len() && d[j] == k;
                                assert(e[j] == k);
                            }
                        }
                    }
                    assert forall|k: Seq<char>| #[trigger]
                        index@.contains_key(k) implies index@[k] < out@.len() && e[index@[k] as int]
                        == k by {
                        if k != key {
                            assert(old_index.contains_key(k));
                        }
                    }
                }
            },
        }
        i = i + 1;
    }
    proof {
        assert(kv.take(kv.len() as int) =~= kv);
    }
    out
}

proof fn lemma_no_members(keys: Seq<Seq<char>>, rows: Seq<(usize, usize)>, key: Seq<char>)
    requires
        keys.len() <= rows.len(),
        !distinct(keys).contains(key),
    ensures
        members(keys, rows, key) == Seq::<(usize, usize)>::empty(),
{
    law_distinct(keys);
    law_members(keys, rows, key);
    assert(!keys.contains(key));
    assert(members(keys, rows, key) =~= Seq::empty());
}

/// The groups of rows with equal keys of some variables.
pub open spec fn grouped(ds: DatasetView, idxs: Seq<usize>) -> Seq<Seq<(usize, usize)>> {
    groups(row_keys(ds, positions(ds), idxs), positions(ds))
}

/// Each group has a row, and each row of a group is one of the dataset.
pub open spec fn sound_groups(ds: DatasetView, groups: Seq<Seq<(usize, usize)>>) -> bool {
    &&& forall|g: int| 0 <= g < groups.len() ==> (#[trigger] groups[g]).len() > 0
    &&& forall|g: int, m: int|
        0 <= g < groups.len() && 0 <= m < groups[g].len() ==> in_range(ds, #[trigger] groups[g][m])
}

/// Groups hold rows of the dataset.
pub proof fn lemma_grouped(ds: DatasetView, idxs: Seq<usize>)
    requires
        ds.batches.len() <= usize::MAX,
    ensures
        sound_groups(ds, grouped(ds, idxs)),
        grouped(ds, idxs).len() > 0 <==> ds.n_cases() > 0,
{
    let at = positions(ds);
    let keys = row_keys(ds, at, idxs);
    lemma_positions(ds, ds.batches.len() as int);
    assert(ds.batches.take(ds.batches.len() as int) =~= ds.batches);
    law_distinct(keys);
    let all = grouped(ds, idxs);
    assert forall|g: int| 0 <= g < all.len() implies (#[trigger] all[g]).len() > 0 by {
        law_members(keys, at, distinct(keys)[g]);
        assert(distinct(keys).contains(distinct(keys)[g]));
    }
    assert forall|g: int, m: int| 0 <= g < all.len() && 0 <= m < all[g].len() implies in_range(
        ds,
        #[trigger] all[g][m],
    ) by {
        law_members(keys, at, distinct(keys)[g]);
        let i = choose|i: int|
            0 <= i < keys.len() && (#[trigger] keys[i]) == distinct(keys)[g] && at[i] == all[g][m];
        assert(in_range(ds, at[i]));
    }
    if keys.len() > 0 {
        assert(keys.contains(keys[0]));
        assert(distinct(keys).contains(keys[0]));
    }
    if all.len() > 0 {
        assert(distinct(keys).contains(distinct(keys)[0]));
    }
}

/// Groups the rows of a dataset by their values of some variables.
pub fn group_by(ds: &Dataset, idxs: &Vec<usize>) -> (r: Vec<Vec<(usize, usize)>>)
    requires
        ds@.wf(),
        usable(ds@, idxs@),
    ensures
        lists(r@) == grouped(ds@, idxs@),
        sound_groups(ds@, lists(r@)),
{
    let at = all_positions(ds);
    let keys = get_keys(ds, &at, idxs);
    proof {
        assert(ds@.batches.len() == ds.batches.len());
        lemma_grouped(ds@, idxs@);
        assert(text::views(keys@).len() == at@.len());
    }
    group_rows(&keys, &at)
}

/// The value of a variable in the first row of each group.
pub open spec fn first_values(
    ds: DatasetView,
    groups: Seq<Seq<(usize, usize)>>,
    idx: int,
) -> Seq<ValueView> {
    Seq::new(groups.len(), |g: int| value_at(ds, groups[g][0], idx))
}

/// Reads a variable in the first row of each group.
pub fn get_first_values(ds: &Dataset, groups: &Vec<Vec<(usize, usize)>>, idx: usize) -> (r: Vec<
    Value,
>)
    requires
        ds@.wf(),
        idx < ds@.variables.len(),
        ds@.readable(idx as int),
        sound_groups(ds@, lists(groups@)),
    ensures
        text::views(r@) == first_values(ds@, lists(groups@), idx as int),
{
    let ghost lv = lists(groups@);
    let mut out: Vec<Value> = Vec::new();
    let mut g: usize = 0;
    while g < groups.len()
        invariant
            g <= groups.len(),
            ds@.wf(),
            idx < ds@.variables.len(),
            ds@.readable(idx as int),
            lv == lists(groups@),
            sound_groups(ds@, lv),
            text::views(out@) =~= first_values(ds@, lv, idx as int).take(g as int),
        decreases groups.len() - g,
    {
        proof {
            assert(lv[g as int].len() > 0);
            assert(in_range(ds@, lv[g as int][0]));
        }
        out.push(value_in_row(ds, groups[g][0], idx));
        g = g + 1;
    }
    proof {
        assert(first_values(ds@, lv, idx as int).take(lv.len() as int) =~= first_values(
            ds@,
            lv,
            idx as int,
        ));
    }
    out
}

/// A value as an entry of a column of a type; a value of another type is null.
pub open spec fn cell_in(t: VariableType, v: ValueView) -> CellView {
    match (t, v) {
        (VariableType::Numeric, ValueView::Numeric(n)) => CellView::Number(n),
        (VariableType::String(_), ValueView::String(s)) => CellView::Text(s),
        _ => CellView::Null,
    }
}

/// The column of values of a type.
pub open spec fn typed_column(t: VariableType, vals: Seq<ValueView>) -> ColumnView {
    ColumnView {
        kind: batch::kind_of_type(t),
        cells: Seq::new(vals.len(), |i: int| cell_in(t, vals[i])),
    }
}

/// Makes a column of values of a type.
pub fn make_column(t: VariableType, vals: &Vec<Value>) -> (r: Column)
    ensures
        r@ == typed_column(t, text::views(vals@)),
{
    let ghost vv = text::views(vals@);
    let mut cells: Vec<Cell> = Vec::new();
    let mut i: usize = 0;
    while i < vals.len()
        invariant
            i <= vals.len(),
            vv == text::views(vals@),
            text::views(cells@) =~= typed_column(t, vv).cells.take(i as int),
        decreases vals.len() - i,
    {
        let cell = match (t, &vals[i]) {
            (VariableType::Numeric, Value::Numeric(n)) => Cell::Number(*n),
            (VariableType::String(_), Value::String(s)) => Cell::Text(s.clone()),
            _ => Cell::Null,
        };
        cells.push(cell);
        i = i + 1;
    }
    let r = Column { kind: kind_for(t), cells };
    proof {
        assert(r@ =~= typed_column(t, vv));
    }
    r
}

/// One of the values is a text.
pub open spec fn has_text(vals: Seq<ValueView>) -> bool {
    exists|i: int| 0 <= i < vals.len() && (#[trigger] vals[i]) is String
}

/// The bytes of the longest text.
pub open spec fn widest(vals: Seq<ValueView>) -> nat
    decreases vals.len(),
{
    if vals.len() == 0 {
        0
    } else {
        let before = widest(vals.drop_last());
        match vals.last() {
            ValueView::String(s) => if text::byte_len(s) > before {
                text::byte_len(s)
            } else {
                before
            },
            _ => before,
        }
    }
}

/// The type of texts of a width: 8 where they are all empty. Only 32 bits of the
/// width are kept.
pub open spec fn type_of_width(width: nat) -> VariableType {
    VariableType::String(
        (if width == 0 {
            8
        } else {
            width
        } % 0x1_0000_0000) as u32,
    )
}

/// The type that values have: texts of the longest one's width where one is a
/// text, and numbers otherwise.
pub open spec fn type_of_values(vals: Seq<ValueView>) -> VariableType {
    if has_text(vals) {
        type_of_width(widest(vals))
    } else {
        VariableType::Numeric
    }
}

/// Makes a type of a width.
pub fn make_type(width: usize) -> (r: VariableType)
    ensures
        r == type_of_width(width as nat),
{
    let w: u64 = if width == 0 {
        8
    } else {
        width as u64
    };
    VariableType::String((w % 0x1_0000_0000) as u32)
}

/// Makes a column of values, and gives their type.
pub fn array_from_values(vals: &Vec<Value>) -> (r: (Column, VariableType))
    ensures
        r.1 == type_of_values(text::views(vals@)),
        r.0@ == typed_column(r.1, text::views(vals@)),
{
    let ghost vv = text::views(vals@);
    let mut textual = false;
    let mut width: usize = 0;
    let mut i: usize = 0;
    proof {
        assert(vv.take(0) =~= Seq::empty());
    }
    while i < vals.len()
        invariant
            i <= vals.len(),
            vv == text::views(vals@),
            textual == exists|k: int| 0 <= k < i && (#[trigger] vv[k]) is String,
            width == widest(vv.take(i as int)),
        decreases vals.len() - i,
    {
        proof {
            assert(vv.take(i + 1).drop_last() =~= vv.take(i as int));
            assert(vv.take(i + 1).last() == vv[i as int]);
        }
        if let Value::String(s) = &vals[i] {
            let n = len_of(s.as_str());
            if n > width {
                width = n;
            }
            textual = true;
            proof {
                assert(vv[i as int] is String);
            }
        }
        i = i + 1;
    }
    proof {
        assert(vv.take(vv.len() as int) =~= vv);
    }
    let t = if textual {
        make_type(width)
    } else {
        VariableType::Numeric
    };
    (make_column(t, vals), t)
}

/// Every batch has a column of the variable.
pub open spec fn covered(ds: DatasetView, idx: int) -> bool {
    forall|b: int| 0 <= b < ds.batches.len() ==> idx < (#[trigger] ds.batches[b]).columns.len()
}

/// The columns of a variable in each batch.
pub open spec fn columns_at(ds: DatasetView, idx: int) -> Seq<ColumnView> {
    Seq::new(ds.batches.len(), |b: int| ds.batches[b].columns[idx])
}

/// Concatenate batches for a single column.
pub fn concat_column_batches(ds: &Dataset, idx: usize) -> (r: Result<Column, String>)
    requires
        covered(ds@, idx as int),
    ensures
        match r {
            Ok(c) => batch::concatenated(columns_at(ds@, idx as int)) == Ok::<
                ColumnView,
                Seq<char>,
            >(c@),
            Err(e) => batch::concatenated(columns_at(ds@, idx as int)) == Err::<
                ColumnView,
                Seq<char>,
            >(e@),
        },
{
    let mut parts: Vec<Column> = Vec::new();
    let mut b: usize = 0;
    while b < ds.batches.len()
        invariant
            b <= ds.batches.len(),
            covered(ds@, idx as int),
            text::views(parts@) =~= columns_at(ds@, idx as int).take(b as int),
        decreases ds.batches.len() - b,
    {
        proof {
            assert(idx < ds@.batches[b as int].columns.len());
        }
        parts.push(ds.batches[b].columns[idx].clone());
        b = b + 1;
    }
    proof {
        assert(columns_at(ds@, idx as int).take(ds@.batches.len() as int) =~= columns_at(
            ds@,
            idx as int,
        ));
    }
    concat_columns(&parts)
}

/// The dataset of variables and their columns in one batch, or why there is none.
pub open spec fn table_of(vars: Seq<VariableView>, columns: Seq<ColumnView>) -> Result<
    DatasetView,
    Seq<char>,
> {
    match batch::batch_of(dataset::fields_for(vars), columns) {
        Ok(b) => Ok(dataset::dataset_of(vars, seq![b])),
        Err(e) => Err(e),
    }
}

/// What a transformation gives: a dataset in order, or an error.
pub open spec fn gives(r: Result<Dataset, String>, v: Result<DatasetView, Seq<char>>) -> bool {
    match r {
        Ok(ds) => v == Ok::<DatasetView, Seq<char>>(ds@) && ds@.wf(),
        Err(e) => v == Err::<DatasetView, Seq<char>>(e@),
    }
}

/// Makes a dataset of variables and their columns.
pub fn make_table(vars: Vec<Variable>, columns: Vec<Column>) -> (r: Result<Dataset, String>)
    ensures
        gives(r, table_of(text::views(vars@), text::views(columns@))),
{
    let ghost vv = text::views(vars@);
    let mut fields: Vec<Field> = Vec::new();
    let mut i: usize = 0;
    while i < vars.len()
        invariant
            i <= vars.len(),
            vv == text::views(vars@),
            text::views(fields@) =~= dataset::fields_for(vv).take(i as int),
        decreases vars.len() - i,
    {
        fields.push(Field { name: vars[i].name.clone(), kind: kind_for(vars[i].var_type) });
        i = i + 1;
    }
    proof {
        assert(dataset::fields_for(vv).take(vv.len() as int) =~= dataset::fields_for(vv));
    }
    match Batch::try_new(fields, columns) {
        Ok(b) => {
            let mut batches: Vec<Batch> = Vec::new();
            batches.push(b);
            proof {
                assert(text::views(batches@) =~= seq![b@]);
            }
            Ok(Dataset::from_parts(vars, batches))
        },
        Err(e) => Err(e),
    }
}

/// The empty dataset.
pub open spec fn nothing() -> DatasetView {
    dataset::dataset_of(Seq::empty(), Seq::empty())
}

/// The first of several names from `i` on that the dataset does not have.
pub open spec fn first_missing(ds: DatasetView, names: Seq<Seq<char>>, i: int) -> Option<int>
    decreases names.len() - i,
{
    if i < 0 || i >= names.len() {
        None
    } else if ds.index_of(names[i]) is None {
        Some(i)
    } else {
        first_missing(ds, names, i + 1)
    }
}

/// The positions of several variables that the dataset has.
pub open spec fn indices_of(ds: DatasetView, names: Seq<Seq<char>>) -> Seq<usize> {
    Seq::new(names.len(), |i: int| ds.index_of(names[i])->0)
}

pub proof fn lemma_first_missing(ds: DatasetView, names: Seq<Seq<char>>, i: int)
    requires
        0 <= i,
    ensures
        match first_missing(ds, names, i) {
            Some(k) => i <= k < names.len() && ds.index_of(names[k]) is None && forall|j: int|
                i <= j < k ==> ds.index_of(#[trigger] names[j]) is Some,
            None => forall|j: int|
                i <= j < names.len() ==> ds.index_of(#[trigger] names[j]) is Some,
        },
    decreases names.len() - i,
{
    if i < names.len() && ds.index_of(names[i]) is Some {
        lemma_first_missing(ds, names, i + 1);
    }
}

/// Looks up several variables; gives the position of the first name that the
/// dataset does not have.
pub fn resolve(ds: &Dataset, names: &[String]) -> (r: Result<Vec<usize>, usize>)
    ensures
        match r {
            Ok(v) => first_missing(ds@, text::views(names@), 0) is None && v@ == indices_of(
                ds@,
                text::views(names@),
            ) && (ds@.wf() ==> forall|i: int|
                0 <= i < v@.len() ==> (#[trigger] v@[i]) < ds@.variables.len()),
            Err(k) => first_missing(ds@, text::views(names@), 0) == Some(k as int) && k
                < names@.len(),
        },
{
    let ghost nv = text::views(names@);
    let mut out: Vec<usize> = Vec::new();
    let mut i: usize = 0;
    while i < names.len()
        invariant
            i <= names.len(),
            nv == text::views(names@),
            first_missing(ds@, nv, 0) == first_missing(ds@, nv, i as int),
            out@ =~= indices_of(ds@, nv).take(i as int),
            ds@.wf() ==> forall|k: int|
                0 <= k < out@.len() ==> (#[trigger] out@[k]) < ds@.variables.len(),
        decreases names.len() - i,
    {
        match ds.variable_index(names[i].as_str()) {
            Some(idx) => {
                out.push(idx);
            },
            None => {
                return Err(i);
            },
        }
        i = i + 1;
    }
    proof {
        assert(indices_of(ds@, nv).take(nv.len() as int) =~= indices_of(ds@, nv));
    }
    Ok(out)
}

/// Whether an entry is legible.
fn legible_cell(t: VariableType, column: &Column, r: usize) -> (b: bool)
    requires
        r < column.cells@.len(),
    ensures
        b == dataset::legible(t, column@, r as int),
{
    match &column.cells[r] {
        Cell::Null => true,
        Cell::Number(_) => matches!(t, VariableType::Numeric) && matches!(
            column.kind,
            ColumnKind::Float64
        ),
        Cell::Text(_) => matches!(t, VariableType::String(_)) && matches!(
            column.kind,
            ColumnKind::Utf8
        ),
        _ => false,
    }
}

/// Whether the entry of a variable in a row is there and legible.
pub fn is_legible_at(ds: &Dataset, p: (usize, usize), idx: usize) -> (r: bool)
    requires
        ds@.wf(),
        idx < ds@.variables.len(),
        in_range(ds@, p),
    ensures
        r == ds@.legible_at(p.0 as int, p.1 as int, idx as int),
{
    let batch = &ds.batches[p.0];
    proof {
        assert(ds@.batches[p.0 as int].wf());
        assert(batch@ == ds@.batches[p.0 as int]);
    }
    if idx >= batch.columns.len() {
        return false;
    }
    proof {
        assert(batch@.columns[idx as int].cells.len() == batch@.num_rows);
    }
    legible_cell(ds.variables[idx].var_type, &batch.columns[idx], p.1)
}

/// Whether every entry of a variable is there and legible.
pub fn is_readable(ds: &Dataset, idx: usize) -> (r: bool)
    requires
        ds@.wf(),
        idx < ds@.variables.len(),
    ensures
        r == ds@.readable(idx as int),
{
    let ghost v = ds@;
    let mut b: usize = 0;
    while b < ds.batches.len()
        invariant
            b <= ds.batches.len(),
            v == ds@,
            v.wf(),
            idx < v.variables.len(),
            forall|x: int, y: int|
                0 <= x < b && 0 <= y < v.batches[x].num_rows ==> #[trigger] v.legible_at(
                    x,
                    y,
                    idx as int,
                ),
        decreases ds.batches.len() - b,
    {
        let batch = &ds.batches[b];
        if batch.num_rows > 0 && idx >= batch.columns.len() {
            proof {
                assert(!v.legible_at(b as int, 0, idx as int));
            }
            return false;
        }
        let mut y: usize = 0;
        while y < batch.num_rows
            invariant
                y <= batch.num_rows,
                b < v.batches.len(),
                v == ds@,
                v.wf(),
                idx < v.variables.len(),
                batch@ == v.batches[b as int],
                batch.num_rows > 0 ==> idx < batch.columns.len(),
                forall|r: int| 0 <= r < y ==> #[trigger] v.legible_at(b as int, r, idx as int),
            decreases batch.num_rows - y,
        {
            proof {
                assert(v.batches[b as int].wf());
                assert(v.batches[b as int].columns[idx as int].cells.len()
                    == v.batches[b as int].num_rows);
            }
            if !legible_cell(ds.variables[idx].var_type, &batch.columns[idx], y) {
                proof {
                    assert(!v.legible_at(b as int, y as int, idx as int));
                }
                return false;
            }
            proof {
                assert(v.legible_at(b as int, y as int, idx as int));
            }
            y = y + 1;
        }
        b = b + 1;
    }
    true
}

/// Whether variables can be used.
pub fn are_usable(ds: &Dataset, idxs: &Vec<usize>) -> (r: bool)
    requires
        ds@.wf(),
    ensures
        r == usable(ds@, idxs@),
{
    let mut i: usize = 0;
    while i < idxs.len()
        invariant
            i <= idxs.len(),
            ds@.wf(),
            forall|k: int|
                0 <= k < i ==> (#[trigger] idxs@[k]) < ds@.variables.len() && ds@.readable(
                    idxs@[k] as int,
                ),
        decreases idxs.len() - i,
    {
        let idx = idxs[i];
        if idx >= ds.variables.len() || !is_readable(ds, idx) {
            proof {
                assert(!(idxs@[i as int] < ds@.variables.len() && ds@.readable(
                    idxs@[i as int] as int,
                )));
            }
            return false;
        }
        i = i + 1;
    }
    true
}

/// Whether every batch has a column of the variable.
pub fn is_covered(ds: &Dataset, idx: usize) -> (r: bool)
    ensures
        r == covered(ds@, idx as int),
{
    let mut b: usize = 0;
    while b < ds.batches.len()
        invariant
            b <= ds.batches.len(),
            forall|x: int| 0 <= x < b ==> idx < (#[trigger] ds@.batches[x]).columns.len(),
        decreases ds.batches.len() - b,
    {
        if idx >= ds.batches[b].columns.len() {
            proof {
                assert(!(idx < ds@.batches[b as int].columns.len()));
            }
            return false;
        }
        b = b + 1;
    }
    true
}

/// An error about a name.
pub fn name_error(what: &str, name: &str) -> (r: String)
    ensures
        r@ == what@ + name@,
{
    join_two(what, name)
}

/// The columns of the first `n` variables, or why there is one that cannot be had.
pub open spec fn all_columns(ds: DatasetView, n: int) -> Option<Result<Seq<ColumnView>, Seq<char>>>
    decreases n,
{
    if n <= 0 {
        Some(Ok(Seq::empty()))
    } else {
        match all_columns(ds, n - 1) {
            Some(Ok(before)) => if !covered(ds, n - 1) {
                None
            } else {
                match batch::concatenated(columns_at(ds, n - 1)) {
                    Ok(c) => Some(Ok(before.push(c))),
                    Err(e) => Some(Err(e)),
                }
            },
            stopped => stopped,
        }
    }
}

proof fn lemma_joined_len(ds: DatasetView, idx: int, n: int)
    requires
        ds.wf(),
        covered(ds, idx),
        0 <= idx,
        0 <= n <= ds.batches.len(),
    ensures
        batch::joined_cells(columns_at(ds, idx).take(n)).len() == dataset::rows_in(
            ds.batches.take(n),
        ),
    decreases n,
{
    let columns = columns_at(ds, idx);
    if n > 0 {
        lemma_joined_len(ds, idx, n - 1);
        dataset::lemma_rows_split(ds.batches, n - 1);
        assert(columns.take(n).drop_last() =~= columns.take(n - 1));
        assert(ds.batches[n - 1].wf());
        assert(ds.batches[n - 1].columns[idx].cells.len() == ds.batches[n - 1].num_rows);
    } else {
        assert(ds.batches.take(0) =~= Seq::empty());
        assert(columns.take(0) =~= Seq::empty());
    }
}

/// A variable's column has an entry for each case.
pub proof fn lemma_concatenated_len(ds: DatasetView, idx: int)
    requires
        ds.wf(),
        covered(ds, idx),
        0 <= idx,
    ensures
        batch::concatenated(columns_at(ds, idx)) matches Ok(c) ==> c.cells.len()
            == ds.n_cases(),
{
    lemma_joined_len(ds, idx, ds.batches.len() as int);
    assert(ds.batches.take(ds.batches.len() as int) =~= ds.batches);
    let columns = columns_at(ds, idx);
    assert(columns.take(columns.len() as int) =~= columns);
}

pub proof fn lemma_all_stop(ds: DatasetView, n: int, m: int)
    requires
        n <= m,
        !(all_columns(ds, n) matches Some(Ok(_))),
    ensures
        all_columns(ds, m) == all_columns(ds, n),
    decreases m - n,
{
    if n < m {
        lemma_all_stop(ds, n, m - 1);
    }
}

/// Collects the columns of all variables.
pub fn collect_all(dataset: &Dataset) -> (r: Option<Result<Vec<Column>, String>>)
    requires
        dataset@.wf(),
    ensures
        match r {
            None => all_columns(dataset@, dataset@.variables.len() as int) is None,
            Some(Ok(v)) => all_columns(dataset@, dataset@.variables.len() as int) == Some(
                Ok::<Seq<ColumnView>, Seq<char>>(text::views(v@)),
            ) && v@.len() == dataset@.variables.len() && forall|k: int|
                0 <= k < v@.len() ==> (#[trigger] v@[k])@.cells.len() == dataset@.n_cases(),
            Some(Err(e)) => all_columns(dataset@, dataset@.variables.len() as int) == Some(
                Err::<Seq<ColumnView>, Seq<char>>(e@),
            ),
        },
{
    let ghost ds = dataset@;
    let mut out: Vec<Column> = Vec::new();
    let mut i: usize = 0;
    proof {
        assert(text::views(out@) =~= Seq::empty());
    }
    while i < dataset.variables.len()
        invariant
            i <= dataset.variables.len(),
            ds == dataset@,
            ds.wf(),
            out@.len() == i,
            forall|k: int| 0 <= k < out@.len() ==> (#[trigger] out@[k])@.cells.len() == ds.n_cases(),
            all_columns(ds, i as int) == Some(
                Ok::<Seq<ColumnView>, Seq<char>>(text::views(out@)),
            ),
        decreases dataset.variables.len() - i,
    {
        let ghost n = ds.variables.len() as int;
        if !is_covered(dataset, i) {
            proof {
                lemma_all_stop(ds, i + 1, n);
            }
            return None;
        }
        proof {
            lemma_concatenated_len(ds, i as int);
        }
        match concat_column_batches(dataset, i) {
            Ok(c) => {
                out.push(c);
            },
            Err(e) => {
                proof {
                    lemma_all_stop(ds, i + 1, n);
                }
                return Some(Err(e));
            },
        }
        i = i + 1;
    }
    Some(Ok(out))
}

pub proof fn lemma_all_columns(ds: DatasetView, n: int)
    requires
        0 <= n,
        all_columns(ds, n) matches Some(Ok(_)),
    ensures
        all_columns(ds, n)->0->Ok_0.len() == n,
        forall|k: int|
            0 <= k < n ==> batch::concatenated(columns_at(ds, k)) == Ok::<
                ColumnView,
                Seq<char>,
            >(#[trigger] all_columns(ds, n)->0->Ok_0[k]),
    decreases n,
{
    if n > 0 {
        lemma_all_columns(ds, n - 1);
        let before = all_columns(ds, n - 1)->0->Ok_0;
        let all = all_columns(ds, n)->0->Ok_0;
        assert forall|k: int| 0 <= k < n implies batch::concatenated(columns_at(ds, k))
            == Ok::<ColumnView, Seq<char>>(#[trigger] all[k]) by {
            if k < n - 1 {
                assert(all[k] == before[k]);
            }
        }
    }
}

/// Results that were gathered one after another, up to the first that is none.
pub open spec fn gathered<T>(parts: Seq<Option<Result<T, Seq<char>>>>) -> Option<
    Result<Seq<T>, Seq<char>>,
>
    decreases parts.len(),
{
    if parts.len() == 0 {
        Some(Ok(Seq::empty()))
    } else {
        match gathered(parts.drop_last()) {
            Some(Ok(before)) => match parts.last() {
                Some(Ok(x)) => Some(Ok(before.push(x))),
                Some(Err(e)) => Some(Err(e)),
                None => None,
            },
            stopped => stopped,
        }
    }
}

proof fn lemma_gathered_stops<T>(parts: Seq<Option<Result<T, Seq<char>>>>, n: int)
    requires
        0 <= n <= parts.len(),
        !(gathered(parts.take(n)) matches Some(Ok(_))),
    ensures
        gathered(parts) == gathered(parts.take(n)),
    decreases parts.len() - n,
{
    if n < parts.len() {
        assert(parts.take(n + 1).drop_last() =~= parts.take(n));
        lemma_gathered_stops(parts, n + 1);
    } else {
        assert(parts.take(n) =~= parts);
    }
}

/// How the next result adds to those that were gathered.
pub proof fn lemma_gathered_next<T>(parts: Seq<Option<Result<T, Seq<char>>>>, n: int)
    requires
        0 <= n < parts.len(),
        gathered(parts.take(n)) matches Some(Ok(_)),
    ensures
        match parts[n] {
            Some(Ok(x)) => gathered(parts.take(n + 1)) == Some(
                Ok::<Seq<T>, Seq<char>>(gathered(parts.take(n))->0->Ok_0.push(x)),
            ),
            Some(Err(e)) => gathered(parts) == Some(Err::<Seq<T>, Seq<char>>(e)),
            None => gathered(parts) is None,
        },
{
    assert(parts.take(n + 1).drop_last() =~= parts.take(n));
    if !(parts[n] matches Some(Ok(_))) {
        lemma_gathered_stops(parts, n + 1);
    }
}

/// The column, error or none that `v` describes.
pub open spec fn is_outcome(
    r: Option<Result<Column, String>>,
    v: Option<Result<ColumnView, Seq<char>>>,
) -> bool {
    match r {
        Some(Ok(c)) => v == Some(Ok::<ColumnView, Seq<char>>(c@)),
        Some(Err(e)) => v == Some(Err::<ColumnView, Seq<char>>(e@)),
        None => v is None,
    }
}

/// The columns, error or none that `v` describes.
pub open spec fn is_gathered(
    r: Option<Result<Vec<Column>, String>>,
    v: Option<Result<Seq<ColumnView>, Seq<char>>>,
) -> bool {
    match r {
        Some(Ok(c)) => v == Some(Ok::<Seq<ColumnView>, Seq<char>>(text::views(c@))),
        Some(Err(e)) => v == Some(Err::<Seq<ColumnView>, Seq<char>>(e@)),
        None => v is None,
    }
}

} // verus!
