//! RESHAPE: CASESTOVARS, from long to wide.
use vstd::hash_map::StringHashMap;
use vstd::prelude::*;

use crate::arith;
use crate::arith::{show, Style};
use crate::batch::{Column, ColumnView};
use crate::dataset::{Dataset, DatasetView};
use crate::number::Number;
use crate::text;
use crate::text::{decimal_of_int, join_two, same_text};
use crate::text_order;
use crate::text_order::sort_texts;
use crate::transform::rows;
use crate::transform::rows::{
    all_positions, are_usable, array_from_values, get_cell_value, get_first_values, get_values,
    group_by, is_legible_at, is_readable, make_column, make_table, name_error, resolve,
};
use crate::value::{Value, ValueView};
use crate::variable;
use crate::variable::{Variable, VariableView};

verus! {

broadcast use crate::text::lemma_views_push;

/// A number as part of a name: a whole number in decimal, and any other as `f`
/// writes it.
pub open spec fn number_text<S: Fn(Number, Style) -> String>(n: Number, f: S) -> Seq<char> {
    if n.whole() {
        text::decimal_int(n.saturated(i64::MIN as int, i64::MAX as int))
    } else {
        arith::shown(f, n, Style::Plain)
    }
}

/// A value of the index variable as part of a name.
pub open spec fn index_text<S: Fn(Number, Style) -> String>(v: ValueView, f: S) -> Option<
    Seq<char>,
> {
    match v {
        ValueView::Numeric(n) => Some(number_text(n, f)),
        ValueView::String(s) => Some(s),
        ValueView::SystemMissing => None,
    }
}

/// The values of the index variable in several rows.
pub open spec fn index_texts<S: Fn(Number, Style) -> String>(
    ds: DatasetView,
    at: Seq<(usize, usize)>,
    index: int,
    f: S,
) -> Seq<Option<Seq<char>>> {
    Seq::new(at.len(), |i: int| index_text(rows::value_at(ds, at[i], index), f))
}

/// The texts that are there.
pub open spec fn present(s: Seq<Option<Seq<char>>>) -> Seq<Seq<char>>
    decreases s.len(),
{
    if s.len() == 0 {
        Seq::empty()
    } else {
        match s.last() {
            Some(t) => present(s.drop_last()).push(t),
            None => present(s.drop_last()),
        }
    }
}

/// The different values of the index variable, in order.
pub open spec fn index_keys<S: Fn(Number, Style) -> String>(ds: DatasetView, index: int, f: S) -> Seq<
    Seq<char>,
> {
    text_order::ordered(
        rows::distinct(present(index_texts(ds, rows::positions(ds), index, f))),
    )
}

/// The last row with a value of the index variable.
pub open spec fn last_with(
    texts: Seq<Option<Seq<char>>>,
    at: Seq<(usize, usize)>,
    key: Seq<char>,
) -> Option<(usize, usize)>
    decreases texts.len(),
{
    if texts.len() == 0 {
        None
    } else if texts.last() == Some(key) {
        Some(at[texts.len() - 1])
    } else {
        last_with(texts.drop_last(), at, key)
    }
}

/// The row of a group that has a value of the index variable.
pub open spec fn choice<S: Fn(Number, Style) -> String>(
    ds: DatasetView,
    group: Seq<(usize, usize)>,
    index: int,
    key: Seq<char>,
    f: S,
) -> Option<(usize, usize)> {
    last_with(index_texts(ds, group, index, f), group, key)
}

/// A variable of the result: its name, the variable that it takes its values from
/// and the value of the index variable, as a position among the different ones.
#[verifier::ext_equal]
pub struct TargetView {
    pub name: Seq<char>,
    pub source: usize,
    pub key: usize,
}

/// A variable of the result.
struct Target {
    name: String,
    source: usize,
    key: usize,
}

impl View for Target {
    type V = TargetView;

    closed spec fn view(&self) -> TargetView {
        TargetView { name: self.name@, source: self.source, key: self.key }
    }
}

/// The variables of the result for the first `n` variables to spread: one for each
/// value of the index variable.
pub open spec fn targets(
    ds: DatasetView,
    names: Seq<Seq<char>>,
    keys: Seq<Seq<char>>,
    n: int,
) -> Seq<TargetView>
    decreases n,
{
    if n <= 0 {
        Seq::empty()
    } else {
        targets(ds, names, keys, n - 1) + Seq::new(
            keys.len(),
            |k: int|
                TargetView {
                    name: names[n - 1] + "_"@ + keys[k],
                    source: ds.index_of(names[n - 1])->0,
                    key: k as usize,
                },
        )
    }
}

/// The value of a variable of the result for a group: missing where no row of the
/// group has the value of the index variable.
pub open spec fn target_value<S: Fn(Number, Style) -> String>(
    ds: DatasetView,
    group: Seq<(usize, usize)>,
    index: int,
    keys: Seq<Seq<char>>,
    t: TargetView,
    f: S,
) -> ValueView {
    match choice(ds, group, index, keys[t.key as int], f) {
        Some(p) => rows::value_at(ds, p, t.source as int),
        None => ValueView::SystemMissing,
    }
}

/// The values for a group of those of the first `n` variables that have a name.
pub open spec fn group_part<S: Fn(Number, Style) -> String>(
    ds: DatasetView,
    group: Seq<(usize, usize)>,
    index: int,
    keys: Seq<Seq<char>>,
    all: Seq<TargetView>,
    name: Seq<char>,
    n: int,
    f: S,
) -> Seq<ValueView>
    decreases n,
{
    if n <= 0 {
        Seq::empty()
    } else {
        let before = group_part(ds, group, index, keys, all, name, n - 1, f);
        if all[n - 1].name == name {
            before.push(target_value(ds, group, index, keys, all[n - 1], f))
        } else {
            before
        }
    }
}

/// The values for the first `n` groups of the variables that have a name. They
/// are more than one for a group where several variables have it.
pub open spec fn named_values<S: Fn(Number, Style) -> String>(
    ds: DatasetView,
    groups: Seq<Seq<(usize, usize)>>,
    index: int,
    keys: Seq<Seq<char>>,
    all: Seq<TargetView>,
    name: Seq<char>,
    n: int,
    f: S,
) -> Seq<ValueView>
    decreases n,
{
    if n <= 0 {
        Seq::empty()
    } else {
        named_values(ds, groups, index, keys, all, name, n - 1, f) + group_part(
            ds,
            groups[n - 1],
            index,
            keys,
            all,
            name,
            all.len() as int,
            f,
        )
    }
}

/// The rows that the values are taken from can be read.
pub open spec fn targets_legible<S: Fn(Number, Style) -> String>(
    ds: DatasetView,
    groups: Seq<Seq<(usize, usize)>>,
    index: int,
    keys: Seq<Seq<char>>,
    all: Seq<TargetView>,
    f: S,
) -> bool {
    forall|t: int, g: int|
        0 <= t < all.len() && 0 <= g < groups.len() ==> (#[trigger] choice(
            ds,
            groups[g],
            index,
            keys[(#[trigger] all[t]).key as int],
            f,
        ) matches Some(p) ==> ds.legible_at(p.0 as int, p.1 as int, all[t].source as int))
}

/// The variables of the result: those that tell the groups apart, then the spread
/// ones.
pub open spec fn wide_variables<S: Fn(Number, Style) -> String>(
    ds: DatasetView,
    ids: Seq<usize>,
    index: int,
    keys: Seq<Seq<char>>,
    all: Seq<TargetView>,
    f: S,
) -> Seq<VariableView> {
    let groups = rows::grouped(ds, ids);
    Seq::new(ids.len(), |i: int| ds.variables[ids[i] as int]) + Seq::new(
        all.len(),
        |t: int|
            variable::variable_of(
                all[t].name,
                rows::type_of_values(
                    named_values(
                        ds,
                        groups,
                        index,
                        keys,
                        all,
                        all[t].name,
                        groups.len() as int,
                        f,
                    ),
                ),
            ),
    )
}

/// The columns of the result.
pub open spec fn wide_columns<S: Fn(Number, Style) -> String>(
    ds: DatasetView,
    ids: Seq<usize>,
    index: int,
    keys: Seq<Seq<char>>,
    all: Seq<TargetView>,
    f: S,
) -> Seq<ColumnView> {
    let groups = rows::grouped(ds, ids);
    Seq::new(
        ids.len(),
        |i: int|
            rows::typed_column(
                ds.variables[ids[i] as int].var_type,
                rows::first_values(ds, groups, ids[i] as int),
            ),
    ) + Seq::new(
        all.len(),
        |t: int|
            {
                let vals = named_values(
                    ds,
                    groups,
                    index,
                    keys,
                    all,
                    all[t].name,
                    groups.len() as int,
                    f,
                );
                rows::typed_column(rows::type_of_values(vals), vals)
            },
    )
}

/// The number of variables to spread before the first that the dataset does not
/// have.
pub open spec fn known_count(ds: DatasetView, names: Seq<Seq<char>>) -> int {
    match rows::first_missing(ds, names, 0) {
        Some(k) => k,
        None => names.len() as int,
    }
}

/// What CASESTOVARS gives, once the variables are found.
pub open spec fn widened_by<S: Fn(Number, Style) -> String>(
    ds: DatasetView,
    ids: Seq<usize>,
    index: int,
    names: Seq<Seq<char>>,
    f: S,
) -> Option<Result<DatasetView, Seq<char>>> {
    if !rows::usable(ds, ids) || !ds.readable(index) {
        None
    } else {
        let keys = index_keys(ds, index, f);
        let all = targets(ds, names, keys, known_count(ds, names));
        if !targets_legible(ds, rows::grouped(ds, ids), index, keys, all, f) {
            None
        } else if known_count(ds, names) < names.len() && ds.n_cases() > 0 {
            Some(Err("Group var not found: "@ + names[known_count(ds, names)]))
        } else {
            Some(
                rows::table_of(
                    wide_variables(ds, ids, index, keys, all, f),
                    wide_columns(ds, ids, index, keys, all, f),
                ),
            )
        }
    }
}

/// What CASESTOVARS gives: a row for each group of rows with equal keys of the
/// id variables, and in it a variable for each value of the index variable. There
/// is no outcome where data that it comes to read cannot be read.
pub open spec fn widened<S: Fn(Number, Style) -> String>(
    ds: DatasetView,
    ids: Seq<Seq<char>>,
    index: Seq<char>,
    names: Seq<Seq<char>>,
    f: S,
) -> Option<Result<DatasetView, Seq<char>>> {
    if ds.batches.len() == 0 {
        Some(Ok(rows::nothing()))
    } else {
        match (rows::first_missing(ds, ids, 0), ds.index_of(index)) {
            (Some(k), _) => Some(Err("ID var not found: "@ + ids[k])),
            (None, None) => Some(Err("Index var not found: "@ + index)),
            (None, Some(at)) => widened_by(ds, rows::indices_of(ds, ids), at as int, names, f),
        }
    }
}

/// The texts of options.
spec fn option_texts(v: Seq<Option<String>>) -> Seq<Option<Seq<char>>> {
    Seq::new(v.len(), |i: int| variable::text_option(v[i]))
}

/// Writes a number as part of a name.
fn show_number<S: Fn(Number, Style) -> String>(n: Number, f: &S) -> (r: String)
    requires
        arith::steady_text(*f),
    ensures
        r@ == number_text(n, *f),
{
    match n.to_whole() {
        Some(k) => decimal_of_int(k),
        None => show(f, n, Style::Plain),
    }
}

/// Reads the index variable in several rows.
fn read_index<S: Fn(Number, Style) -> String>(
    ds: &Dataset,
    at: &Vec<(usize, usize)>,
    index: usize,
    f: &S,
) -> (r: Vec<Option<String>>)
    requires
        arith::steady_text(*f),
        ds@.wf(),
        index < ds@.variables.len(),
        ds@.readable(index as int),
        forall|i: int| 0 <= i < at@.len() ==> rows::in_range(ds@, #[trigger] at@[i]),
    ensures
        option_texts(r@) == index_texts(ds@, at@, index as int, *f),
{
    let vals = get_values(ds, at, index);
    let ghost vv = text::views(vals@);
    let ghost all = index_texts(ds@, at@, index as int, *f);
    let mut out: Vec<Option<String>> = Vec::new();
    let mut i: usize = 0;
    proof {
        assert(vv.len() == at@.len());
    }
    while i < vals.len()
        invariant
            i <= vals@.len(),
            arith::steady_text(*f),
            vv == text::views(vals@),
            vv == rows::values_at(ds@, at@, index as int),
            vv.len() == at@.len(),
            all == index_texts(ds@, at@, index as int, *f),
            option_texts(out@) =~= all.take(i as int),
        decreases vals@.len() - i,
    {
        let ghost before = out@;
        proof {
            assert(vv[i as int] == vals@[i as int]@);
        }
        let t = match &vals[i] {
            Value::Numeric(n) => Some(show_number(*n, f)),
            Value::String(s) => Some(s.clone()),
            Value::SystemMissing => None,
        };
        out.push(t);
        proof {
            assert(option_texts(out@) =~= option_texts(before).push(variable::text_option(t)));
        }
        i = i + 1;
    }
    proof {
        assert(all.take(all.len() as int) =~= all);
    }
    out
}

/// Lists the different texts, in the order in which each comes first.
fn find_distinct(v: &Vec<Option<String>>) -> (r: Vec<String>)
    ensures
        text::views(r@) == rows::distinct(present(option_texts(v@))),
{
    let ghost vv = option_texts(v@);
    let mut seen: StringHashMap<bool> = StringHashMap::new();
    let mut out: Vec<String> = Vec::new();
    let mut i: usize = 0;
    proof {
        assert(vv.take(0) =~= Seq::empty());
        assert(text::views(out@) =~= Seq::empty());
    }
    while i < v.len()
        invariant
            i <= v@.len(),
            vv == option_texts(v@),
            text::views(out@) == rows::distinct(present(vv.take(i as int))),
            forall|k: Seq<char>| #[trigger]
                seen@.contains_key(k) <==> text::views(out@).contains(k),
        decreases v@.len() - i,
    {
        let ghost before = text::views(out@);
        let ghost now = present(vv.take(i as int));
        let ghost next = present(vv.take(i + 1));
        let ghost had = seen@;
        proof {
            assert(vv.take(i + 1).drop_last() =~= vv.take(i as int));
            assert(vv.take(i + 1).last() == vv[i as int]);
        }
        if let Some(t) = &v[i] {
            proof {
                assert(next == now.push(t@));
                assert(next.drop_last() =~= now);
            }
            if seen.get(t.as_str()).is_none() {
                seen.insert(t.clone(), true);
                out.push(t.clone());
                proof {
                    let after = text::views(out@);
                    assert(after == before.push(t@));
                    assert forall|k: Seq<char>| #[trigger]
                        seen@.contains_key(k) <==> after.contains(k) by {
                        assert(had.contains_key(k) <==> before.contains(k));
                        if k == t@ {
                            assert(after[before.len() as int] == k);
                        } else if before.contains(k) {
                            let j = choose|j: int| 0 <= j < before.len() && before[j] == k;
                            assert(after[j] == k);
                        } else if after.contains(k) {
                            let j = choose|j: int| 0 <= j < after.len() && after[j] == k;
                            assert(before[j] == k);
                        }
                    }
                }
            }
        }
        i = i + 1;
    }
    proof {
        assert(vv.take(vv.len() as int) =~= vv);
    }
    out
}

/// Finds for each key the last row with it.
fn find_last(texts: &Vec<Option<String>>, at: &Vec<(usize, usize)>, keys: &Vec<String>) -> (r: Vec<
    Option<(usize, usize)>,
>)
    requires
        texts@.len() == at@.len(),
    ensures
        r@ == Seq::new(
            keys@.len(),
            |k: int| last_with(option_texts(texts@), at@, text::views(keys@)[k]),
        ),
{
    let ghost tv = option_texts(texts@);
    let ghost kv = text::views(keys@);
    let mut index: StringHashMap<usize> = StringHashMap::new();
    let mut i: usize = 0;
    proof {
        assert(tv.take(0) =~= Seq::empty());
    }
    while i < texts.len()
        invariant
            i <= texts@.len(),
            texts@.len() == at@.len(),
            tv == option_texts(texts@),
            forall|k: Seq<char>| #[trigger]
                index@.contains_key(k) <==> last_with(tv.take(i as int), at@, k) is Some,
            forall|k: Seq<char>| #[trigger]
                index@.contains_key(k) ==> index@[k] < at@.len() && last_with(
                    tv.take(i as int),
                    at@,
                    k,
                ) == Some(at@[index@[k] as int]),
        decreases texts@.len() - i,
    {
        let ghost before = index@;
        proof {
            assert(tv.take(i + 1).drop_last() =~= tv.take(i as int));
            assert(tv.take(i + 1).last() == tv[i as int]);
        }
        if let Some(t) = &texts[i] {
            index.insert(t.clone(), i);
        }
        proof {
            assert forall|k: Seq<char>| #[trigger]
                index@.contains_key(k) <==> last_with(tv.take(i + 1), at@, k) is Some by {
                assert(before.contains_key(k) <==> last_with(tv.take(i as int), at@, k) is Some);
            }
            assert forall|k: Seq<char>| #[trigger]
                index@.contains_key(k) implies index@[k] < at@.len() && last_with(
                tv.take(i + 1),
                at@,
                k,
            ) == Some(at@[index@[k] as int]) by {
                assert(before.contains_key(k) <==> last_with(tv.take(i as int), at@, k) is Some);
            }
        }
        i = i + 1;
    }
    proof {
        assert(tv.take(tv.len() as int) =~= tv);
    }
    let ghost all = Seq::new(keys@.len(), |k: int| last_with(tv, at@, kv[k]));
    let mut out: Vec<Option<(usize, usize)>> = Vec::new();
    let mut k: usize = 0;
    while k < keys.len()
        invariant
            k <= keys@.len(),
            kv == text::views(keys@),
            all == Seq::new(keys@.len(), |k: int| last_with(tv, at@, kv[k])),
            forall|k: Seq<char>| #[trigger]
                index@.contains_key(k) <==> last_with(tv, at@, k) is Some,
            forall|k: Seq<char>| #[trigger]
                index@.contains_key(k) ==> index@[k] < at@.len() && last_with(
                    tv,
                    at@,
                    k,
                ) == Some(at@[index@[k] as int]),
            out@ =~= all.take(k as int),
        decreases keys@.len() - k,
    {
        proof {
            assert(all[k as int] == last_with(tv, at@, keys@[k as int]@));
            assert(index@.contains_key(keys@[k as int]@) <==> all[k as int] is Some);
        }
        let found = match index.get(keys[k].as_str()) {
            Some(i) => Some(at[*i]),
            None => None,
        };
        out.push(found);
        k = k + 1;
    }
    proof {
        assert(all.take(all.len() as int) =~= all);
    }
    out
}

/// For each group the rows that have each value of the index variable.
spec fn is_table<S: Fn(Number, Style) -> String>(
    table: Seq<Vec<Option<(usize, usize)>>>,
    ds: DatasetView,
    groups: Seq<Seq<(usize, usize)>>,
    index: int,
    keys: Seq<Seq<char>>,
    f: S,
) -> bool {
    &&& table.len() == groups.len()
    &&& forall|g: int|
        0 <= g < groups.len() ==> (#[trigger] table[g])@ == Seq::new(
            keys.len(),
            |k: int| choice(ds, groups[g], index, keys[k], f),
        )
}

/// A chosen row is one of the group.
proof fn lemma_last_with(texts: Seq<Option<Seq<char>>>, at: Seq<(usize, usize)>, key: Seq<char>)
    requires
        texts.len() <= at.len(),
    ensures
        last_with(texts, at, key) matches Some(p) ==> exists|i: int|
            0 <= i < texts.len() && at[i] == p,
    decreases texts.len(),
{
    if texts.len() > 0 {
        if texts.last() == Some(key) {
            assert(at[texts.len() - 1] == last_with(texts, at, key)->0);
        } else {
            lemma_last_with(texts.drop_last(), at, key);
        }
    }
}

proof fn lemma_choice_in_range<S: Fn(Number, Style) -> String>(
    ds: DatasetView,
    groups: Seq<Seq<(usize, usize)>>,
    g: int,
    index: int,
    key: Seq<char>,
    f: S,
)
    requires
        rows::sound_groups(ds, groups),
        0 <= g < groups.len(),
    ensures
        choice(ds, groups[g], index, key, f) matches Some(p) ==> rows::in_range(ds, p),
{
    let texts = index_texts(ds, groups[g], index, f);
    lemma_last_with(texts, groups[g], key);
    if let Some(p) = choice(ds, groups[g], index, key, f) {
        let i = choose|i: int| 0 <= i < texts.len() && groups[g][i] == p;
        assert(rows::in_range(ds, groups[g][i]));
    }
}

/// Finds for each group the rows that have each value of the index variable.
fn make_choices<S: Fn(Number, Style) -> String>(
    ds: &Dataset,
    groups: &Vec<Vec<(usize, usize)>>,
    index: usize,
    keys: &Vec<String>,
    f: &S,
) -> (r: Vec<Vec<Option<(usize, usize)>>>)
    requires
        arith::steady_text(*f),
        ds@.wf(),
        index < ds@.variables.len(),
        ds@.readable(index as int),
        rows::sound_groups(ds@, rows::lists(groups@)),
    ensures
        is_table(r@, ds@, rows::lists(groups@), index as int, text::views(keys@), *f),
{
    let ghost lv = rows::lists(groups@);
    let ghost kv = text::views(keys@);
    let mut out: Vec<Vec<Option<(usize, usize)>>> = Vec::new();
    let mut g: usize = 0;
    while g < groups.len()
        invariant
            g <= groups@.len(),
            arith::steady_text(*f),
            ds@.wf(),
            index < ds@.variables.len(),
            ds@.readable(index as int),
            lv == rows::lists(groups@),
            kv == text::views(keys@),
            rows::sound_groups(ds@, lv),
            out@.len() == g,
            forall|h: int|
                0 <= h < g ==> (#[trigger] out@[h])@ == Seq::new(
                    kv.len(),
                    |k: int| choice(ds@, lv[h], index as int, kv[k], *f),
                ),
        decreases groups@.len() - g,
    {
        proof {
            assert(lv[g as int] == groups@[g as int]@);
            assert forall|i: int| 0 <= i < groups@[g as int]@.len() implies rows::in_range(
                ds@,
                #[trigger] groups@[g as int]@[i],
            ) by {
                assert(rows::in_range(ds@, lv[g as int][i]));
            }
        }
        let texts = read_index(ds, &groups[g], index, f);
        proof {
            assert(option_texts(texts@).len() == groups@[g as int]@.len());
        }
        let row = find_last(&texts, &groups[g], keys);
        proof {
            assert(row@ =~= Seq::new(
                kv.len(),
                |k: int| choice(ds@, lv[g as int], index as int, kv[k], *f),
            ));
        }
        out.push(row);
        g = g + 1;
    }
    out
}

/// Lists the variables of the result.
fn make_targets(
    ds: &Dataset,
    names: &[String],
    idxs: &Vec<usize>,
    keys: &Vec<String>,
) -> (r: Vec<Target>)
    requires
        idxs@.len() <= names@.len(),
        forall|i: int|
            0 <= i < idxs@.len() ==> ds@.index_of(text::views(names@)[i]) == Some(
                #[trigger] idxs@[i],
            ) && idxs@[i] < ds@.variables.len(),
    ensures
        text::views(r@) == targets(
            ds@,
            text::views(names@),
            text::views(keys@),
            idxs@.len() as int,
        ),
        forall|t: int|
            0 <= t < r@.len() ==> (#[trigger] r@[t]).key < keys@.len() && r@[t].source
                < ds@.variables.len(),
{
    let ghost nv = text::views(names@);
    let ghost kv = text::views(keys@);
    let mut out: Vec<Target> = Vec::new();
    let mut i: usize = 0;
    proof {
        assert(text::views(out@) =~= Seq::empty());
    }
    while i < idxs.len()
        invariant
            i <= idxs@.len() <= names@.len(),
            nv == text::views(names@),
            kv == text::views(keys@),
            forall|i: int|
                0 <= i < idxs@.len() ==> ds@.index_of(nv[i]) == Some(#[trigger] idxs@[i])
                    && idxs@[i] < ds@.variables.len(),
            text::views(out@) == targets(ds@, nv, kv, i as int),
            forall|t: int|
                0 <= t < out@.len() ==> (#[trigger] out@[t]).key < keys@.len() && out@[t].source
                    < ds@.variables.len(),
        decreases idxs@.len() - i,
    {
        let ghost before = text::views(out@);
        let ghost more = Seq::new(
            kv.len(),
            |k: int|
                TargetView { name: nv[i as int] + "_"@ + kv[k], source: idxs@[i as int], key: k as usize },
        );
        proof {
            assert(ds@.index_of(nv[i as int]) == Some(idxs@[i as int]));
        }
        let mut k: usize = 0;
        while k < keys.len()
            invariant
                i < idxs@.len() <= names@.len(),
                k <= keys@.len(),
                nv == text::views(names@),
                kv == text::views(keys@),
                idxs@[i as int] < ds@.variables.len(),
                more == Seq::new(
                    kv.len(),
                    |k: int|
                        TargetView {
                            name: nv[i as int] + "_"@ + kv[k],
                            source: idxs@[i as int],
                            key: k as usize,
                        },
                ),
                text::views(out@) =~= before + more.take(k as int),
                forall|t: int|
                    0 <= t < out@.len() ==> (#[trigger] out@[t]).key < keys@.len()
                        && out@[t].source < ds@.variables.len(),
            decreases keys@.len() - k,
        {
            let mut name = join_two(names[i].as_str(), "_");
            name.append(keys[k].as_str());
            let t = Target { name, source: idxs[i], key: k };
            proof {
                assert(t@ =~= more[k as int]);
            }
            out.push(t);
            k = k + 1;
        }
        proof {
            assert(more.take(kv.len() as int) =~= more);
            assert(text::views(out@) =~= targets(ds@, nv, kv, i + 1));
        }
        i = i + 1;
    }
    out
}

/// Whether the rows that the values are taken from can be read.
fn are_targets_legible<S: Fn(Number, Style) -> String>(
    ds: &Dataset,
    groups: &Vec<Vec<(usize, usize)>>,
    Ghost(index): Ghost<int>,
    keys: &Vec<String>,
    all: &Vec<Target>,
    table: &Vec<Vec<Option<(usize, usize)>>>,
    f: &S,
) -> (r: bool)
    requires
        ds@.wf(),
        rows::sound_groups(ds@, rows::lists(groups@)),
        is_table(table@, ds@, rows::lists(groups@), index, text::views(keys@), *f),
        forall|t: int|
            0 <= t < all@.len() ==> (#[trigger] all@[t]).key < keys@.len() && all@[t].source
                < ds@.variables.len(),
    ensures
        r == targets_legible(
            ds@,
            rows::lists(groups@),
            index,
            text::views(keys@),
            text::views(all@),
            *f,
        ),
{
    let ghost lv = rows::lists(groups@);
    let ghost kv = text::views(keys@);
    let ghost av = text::views(all@);
    let mut t: usize = 0;
    while t < all.len()
        invariant
            t <= all@.len(),
            ds@.wf(),
            lv == rows::lists(groups@),
            kv == text::views(keys@),
            av == text::views(all@),
            rows::sound_groups(ds@, lv),
            is_table(table@, ds@, lv, index, kv, *f),
            forall|t: int|
                0 <= t < all@.len() ==> (#[trigger] all@[t]).key < keys@.len() && all@[t].source
                    < ds@.variables.len(),
            forall|u: int, g: int|
                0 <= u < t && 0 <= g < lv.len() ==> (#[trigger] choice(
                    ds@,
                    lv[g],
                    index,
                    kv[(#[trigger] av[u]).key as int],
                    *f,
                ) matches Some(p) ==> ds@.legible_at(
                    p.0 as int,
                    p.1 as int,
                    av[u].source as int,
                )),
        decreases all@.len() - t,
    {
        let mut g: usize = 0;
        proof {
            assert(av[t as int] == all@[t as int]@);
            assert(all@[t as int].key < keys@.len());
        }
        while g < table.len()
            invariant
                t < all@.len(),
                g <= table@.len(),
                ds@.wf(),
                lv == rows::lists(groups@),
                kv == text::views(keys@),
                av == text::views(all@),
                av[t as int] == all@[t as int]@,
                rows::sound_groups(ds@, lv),
                is_table(table@, ds@, lv, index, kv, *f),
                all@[t as int].key < keys@.len(),
                all@[t as int].source < ds@.variables.len(),
                forall|h: int|
                    0 <= h < g ==> (#[trigger] choice(
                        ds@,
                        lv[h],
                        index,
                        kv[av[t as int].key as int],
                        *f,
                    ) matches Some(p) ==> ds@.legible_at(
                        p.0 as int,
                        p.1 as int,
                        av[t as int].source as int,
                    )),
            decreases table@.len() - g,
        {
            let ghost c = choice(ds@, lv[g as int], index, kv[av[t as int].key as int], *f);
            proof {
                assert(table@[g as int]@[all@[t as int].key as int] == c);
                lemma_choice_in_range(
                    ds@,
                    lv,
                    g as int,
                    index,
                    kv[av[t as int].key as int],
                    *f,
                );
            }
            if let Some(p) = table[g][all[t].key] {
                if !is_legible_at(ds, p, all[t].source) {
                    proof {
                        assert(choice(
                            ds@,
                            lv[g as int],
                            index,
                            kv[av[t as int].key as int],
                            *f,
                        ) == Some(p));
                    }
                    return false;
                }
            }
            g = g + 1;
        }
        t = t + 1;
    }
    true
}

/// Which of the variables have the name of one of them.
fn find_namesakes(all: &Vec<Target>, t: usize) -> (r: Vec<bool>)
    requires
        t < all@.len(),
    ensures
        r@.len() == all@.len(),
        forall|u: int|
            0 <= u < r@.len() ==> (#[trigger] r@[u]) == (text::views(all@)[u].name == text::views(
                all@,
            )[t as int].name),
{
    let ghost av = text::views(all@);
    let mut out: Vec<bool> = Vec::new();
    let mut u: usize = 0;
    while u < all.len()
        invariant
            t < all@.len(),
            u <= all@.len(),
            av == text::views(all@),
            out@.len() == u,
            forall|w: int|
                0 <= w < u ==> (#[trigger] out@[w]) == (av[w].name == av[t as int].name),
        decreases all@.len() - u,
    {
        proof {
            assert(av[u as int] == all@[u as int]@);
            assert(av[t as int] == all@[t as int]@);
        }
        out.push(same_text(all[u].name.as_str(), all[t].name.as_str()));
        u = u + 1;
    }
    out
}

/// Reads the values of the variables that have the name of one of them.
#[verifier::rlimit(30)]
fn read_targets<S: Fn(Number, Style) -> String>(
    ds: &Dataset,
    groups: &Vec<Vec<(usize, usize)>>,
    Ghost(index): Ghost<int>,
    keys: &Vec<String>,
    all: &Vec<Target>,
    table: &Vec<Vec<Option<(usize, usize)>>>,
    t: usize,
    f: &S,
) -> (r: Vec<Value>)
    requires
        ds@.wf(),
        t < all@.len(),
        rows::sound_groups(ds@, rows::lists(groups@)),
        is_table(table@, ds@, rows::lists(groups@), index, text::views(keys@), *f),
        forall|t: int|
            0 <= t < all@.len() ==> (#[trigger] all@[t]).key < keys@.len() && all@[t].source
                < ds@.variables.len(),
        targets_legible(
            ds@,
            rows::lists(groups@),
            index,
            text::views(keys@),
            text::views(all@),
            *f,
        ),
    ensures
        text::views(r@) == named_values(
            ds@,
            rows::lists(groups@),
            index,
            text::views(keys@),
            text::views(all@),
            text::views(all@)[t as int].name,
            groups@.len() as int,
            *f,
        ),
{
    let ghost lv = rows::lists(groups@);
    let ghost kv = text::views(keys@);
    let ghost av = text::views(all@);
    let ghost name = av[t as int].name;
    let same = find_namesakes(all, t);
    let mut out: Vec<Value> = Vec::new();
    let mut g: usize = 0;
    proof {
        assert(text::views(out@) =~= Seq::empty());
    }
    while g < table.len()
        invariant
            g <= table@.len(),
            ds@.wf(),
            lv == rows::lists(groups@),
            kv == text::views(keys@),
            av == text::views(all@),
            name == av[t as int].name,
            rows::sound_groups(ds@, lv),
            is_table(table@, ds@, lv, index, kv, *f),
            forall|t: int|
                0 <= t < all@.len() ==> (#[trigger] all@[t]).key < keys@.len() && all@[t].source
                    < ds@.variables.len(),
            targets_legible(ds@, lv, index, kv, av, *f),
            same@.len() == all@.len(),
            forall|u: int|
                0 <= u < same@.len() ==> (#[trigger] same@[u]) == (av[u].name == name),
            text::views(out@) == named_values(ds@, lv, index, kv, av, name, g as int, *f),
        decreases table@.len() - g,
    {
        let ghost before = text::views(out@);
        let mut u: usize = 0;
        proof {
            assert(before + group_part(ds@, lv[g as int], index, kv, av, name, 0, *f) =~= before);
        }
        while u < all.len()
            invariant
                g < table@.len(),
                u <= all@.len(),
                ds@.wf(),
                lv == rows::lists(groups@),
                kv == text::views(keys@),
                av == text::views(all@),
                rows::sound_groups(ds@, lv),
                is_table(table@, ds@, lv, index, kv, *f),
                forall|t: int|
                    0 <= t < all@.len() ==> (#[trigger] all@[t]).key < keys@.len()
                        && all@[t].source < ds@.variables.len(),
                targets_legible(ds@, lv, index, kv, av, *f),
                same@.len() == all@.len(),
                forall|u: int|
                    0 <= u < same@.len() ==> (#[trigger] same@[u]) == (av[u].name == name),
                text::views(out@) == before + group_part(
                    ds@,
                    lv[g as int],
                    index,
                    kv,
                    av,
                    name,
                    u as int,
                    *f,
                ),
            decreases all@.len() - u,
        {
            let ghost part = group_part(ds@, lv[g as int], index, kv, av, name, u as int, *f);
            proof {
                assert(av[u as int] == all@[u as int]@);
                assert(all@[u as int].key < keys@.len());
                assert(same@[u as int] == (av[u as int].name == name));
            }
            if same[u] {
                let ghost c = choice(ds@, lv[g as int], index, kv[av[u as int].key as int], *f);
                proof {
                    assert(table@[g as int]@[all@[u as int].key as int] == c);
                    lemma_choice_in_range(
                        ds@,
                        lv,
                        g as int,
                        index,
                        kv[av[u as int].key as int],
                        *f,
                    );
                }
                let v = match table[g][all[u].key] {
                    Some(p) => get_cell_value(ds, p.0, p.1, all[u].source),
                    None => Value::SystemMissing,
                };
                proof {
                    assert(v@ == target_value(ds@, lv[g as int], index, kv, av[u as int], *f));
                    assert((before + part).push(v@) =~= before + part.push(v@));
                }
                out.push(v);
            }
            u = u + 1;
        }
        g = g + 1;
    }
    out
}

/// The names of the first `n` variables, looked up.
fn resolve_known(ds: &Dataset, names: &[String]) -> (r: Vec<usize>)
    requires
        ds@.wf(),
    ensures
        r@.len() == known_count(ds@, text::views(names@)),
        r@.len() <= names@.len(),
        forall|i: int|
            0 <= i < r@.len() ==> ds@.index_of(text::views(names@)[i]) == Some(#[trigger] r@[i])
                && r@[i] < ds@.variables.len(),
{
    let ghost nv = text::views(names@);
    let mut out: Vec<usize> = Vec::new();
    let mut i: usize = 0;
    while i < names.len()
        invariant
            i <= names@.len(),
            ds@.wf(),
            nv == text::views(names@),
            out@.len() == i,
            rows::first_missing(ds@, nv, 0) == rows::first_missing(ds@, nv, i as int),
            forall|k: int|
                0 <= k < out@.len() ==> ds@.index_of(nv[k]) == Some(#[trigger] out@[k]) && out@[k]
                    < ds@.variables.len(),
        decreases names@.len() - i,
    {
        proof {
            assert(nv[i as int] == names@[i as int]@);
        }
        match ds.variable_index(names[i].as_str()) {
            Some(idx) => {
                out.push(idx);
            },
            None => {
                return out;
            },
        }
        i = i + 1;
    }
    out
}

/// Finds the different values of the index variable, in order.
fn find_index_keys<S: Fn(Number, Style) -> String>(ds: &Dataset, index: usize, f: &S) -> (r: Vec<
    String,
>)
    requires
        arith::steady_text(*f),
        ds@.wf(),
        index < ds@.variables.len(),
        ds@.readable(index as int),
    ensures
        text::views(r@) == index_keys(ds@, index as int, *f),
{
    let at = all_positions(ds);
    let texts = read_index(ds, &at, index, f);
    let different = find_distinct(&texts);
    sort_texts(&different)
}

#[verifier::rlimit(30)]
fn make_wide<S: Fn(Number, Style) -> String>(
    dataset: &Dataset,
    ids: &Vec<usize>,
    index: usize,
    names: &[String],
    f: &S,
) -> (r: Option<Result<(Vec<Variable>, Vec<Column>), String>>)
    requires
        arith::steady_text(*f),
        dataset@.wf(),
        index < dataset@.variables.len(),
    ensures
        match r {
            Some(Ok((vars, columns))) => widened_by(
                dataset@,
                ids@,
                index as int,
                text::views(names@),
                *f,
            ) == Some(rows::table_of(text::views(vars@), text::views(columns@))),
            Some(Err(e)) => widened_by(
                dataset@,
                ids@,
                index as int,
                text::views(names@),
                *f,
            ) == Some(Err::<DatasetView, Seq<char>>(e@)),
            None => widened_by(dataset@, ids@, index as int, text::views(names@), *f) is None,
        },
{
    let ghost ds = dataset@;
    let ghost nv = text::views(names@);
    if !are_usable(dataset, ids) || !is_readable(dataset, index) {
        return None;
    }
    let groups = group_by(dataset, ids);
    let ghost lv = rows::lists(groups@);
    let keys = find_index_keys(dataset, index, f);
    let ghost kv = text::views(keys@);
    let idxs = resolve_known(dataset, names);
    let all = make_targets(dataset, names, &idxs, &keys);
    let ghost av = text::views(all@);
    let table = make_choices(dataset, &groups, index, &keys, f);
    if !are_targets_legible(dataset, &groups, Ghost(index as int), &keys, &all, &table, f) {
        return None;
    }
    proof {
        assert(ds.batches.len() == dataset.batches.len());
        rows::lemma_grouped(ds, ids@);
        assert(lv.len() == groups@.len());
    }
    if idxs.len() < names.len() && groups.len() > 0 {
        return Some(Err(name_error("Group var not found: ", names[idxs.len()].as_str())));
    }
    let ghost vars_spec = wide_variables(ds, ids@, index as int, kv, av, *f);
    let ghost cols_spec = wide_columns(ds, ids@, index as int, kv, av, *f);
    let mut vars: Vec<Variable> = Vec::new();
    let mut columns: Vec<Column> = Vec::new();
    let mut i: usize = 0;
    while i < ids.len()
        invariant
            i <= ids@.len(),
            ds == dataset@,
            ds.wf(),
            rows::usable(ds, ids@),
            lv == rows::lists(groups@),
            lv == rows::grouped(ds, ids@),
            rows::sound_groups(ds, lv),
            vars_spec == wide_variables(ds, ids@, index as int, kv, av, *f),
            cols_spec == wide_columns(ds, ids@, index as int, kv, av, *f),
            text::views(vars@) =~= vars_spec.take(i as int),
            text::views(columns@) =~= cols_spec.take(i as int),
        decreases ids@.len() - i,
    {
        proof {
            assert(ids@[i as int] < ds.variables.len());
        }
        let idx = ids[i];
        vars.push(dataset.variables[idx].clone());
        let vals = get_first_values(dataset, &groups, idx);
        columns.push(make_column(dataset.variables[idx].var_type, &vals));
        i = i + 1;
    }
    let mut t: usize = 0;
    while t < all.len()
        invariant
            t <= all@.len(),
            ds == dataset@,
            ds.wf(),
            lv == rows::lists(groups@),
            lv == rows::grouped(ds, ids@),
            lv.len() == groups@.len(),
            kv == text::views(keys@),
            av == text::views(all@),
            rows::sound_groups(ds, lv),
            is_table(table@, ds, lv, index as int, kv, *f),
            forall|t: int|
                0 <= t < all@.len() ==> (#[trigger] all@[t]).key < keys@.len() && all@[t].source
                    < ds.variables.len(),
            targets_legible(ds, lv, index as int, kv, av, *f),
            vars_spec == wide_variables(ds, ids@, index as int, kv, av, *f),
            cols_spec == wide_columns(ds, ids@, index as int, kv, av, *f),
            text::views(vars@) =~= vars_spec.take(ids@.len() + t),
            text::views(columns@) =~= cols_spec.take(ids@.len() + t),
        decreases all@.len() - t,
    {
        proof {
            assert(av[t as int] == all@[t as int]@);
        }
        let vals = read_targets(
            dataset,
            &groups,
            Ghost(index as int),
            &keys,
            &all,
            &table,
            t,
            f,
        );
        let (column, var_type) = array_from_values(&vals);
        vars.push(Variable::of_type(all[t].name.as_str(), var_type));
        columns.push(column);
        t = t + 1;
    }
    proof {
        assert(vars_spec.take(vars_spec.len() as int) =~= vars_spec);
        assert(cols_spec.take(cols_spec.len() as int) =~= cols_spec);
    }
    Some(Ok((vars, columns)))
}

/// RESHAPE: CASESTOVARS (Long to Wide)
pub fn cases_to_vars<S: Fn(Number, Style) -> String>(
    dataset: &Dataset,
    id_vars: &[String],
    index_var: &str,
    group_vars: &[String],
    shown: &S,
) -> (r: Result<Dataset, String>)
    requires
        arith::steady_text(*shown),
        dataset@.wf(),
        widened(
            dataset@,
            text::views(id_vars@),
            index_var@,
            text::views(group_vars@),
            *shown,
        ) is Some,
    ensures
        rows::gives(
            r,
            widened(
                dataset@,
                text::views(id_vars@),
                index_var@,
                text::views(group_vars@),
                *shown,
            )->0,
        ),
{
    if dataset.batches.len() == 0 {
        return Ok(Dataset::new());
    }
    let ids = match resolve(dataset, id_vars) {
        Ok(v) => v,
        Err(k) => {
            return Err(name_error("ID var not found: ", id_vars[k].as_str()));
        },
    };
    let index = match dataset.variable_index(index_var) {
        Some(i) => i,
        None => {
            return Err(name_error("Index var not found: ", index_var));
        },
    };
    match make_wide(dataset, &ids, index, group_vars, shown) {
        Some(Ok((vars, columns))) => make_table(vars, columns),
        Some(Err(e)) => Err(e),
        None => Err(String::new()),
    }
}

/// CASESTOVARS, where the data can be read.
pub fn try_cases_to_vars<S: Fn(Number, Style) -> String>(
    dataset: &Dataset,
    id_vars: &[String],
    index_var: &str,
    group_vars: &[String],
    shown: &S,
) -> (r: Option<Result<Dataset, String>>)
    requires
        arith::steady_text(*shown),
        dataset@.wf(),
    ensures
        match r {
            Some(x) => widened(
                dataset@,
                text::views(id_vars@),
                index_var@,
                text::views(group_vars@),
                *shown,
            ) matches Some(y) && rows::gives(x, y),
            None => widened(
                dataset@,
                text::views(id_vars@),
                index_var@,
                text::views(group_vars@),
                *shown,
            ) is None,
        },
{
    if dataset.batches.len() > 0 {
        if let Ok(ids) = resolve(dataset, id_vars) {
            if let Some(index) = dataset.variable_index(index_var) {
                if make_wide(dataset, &ids, index, group_vars, shown).is_none() {
                    return None;
                }
            }
        }
    }
    Some(cases_to_vars(dataset, id_vars, index_var, group_vars, shown))
}

} // verus!
