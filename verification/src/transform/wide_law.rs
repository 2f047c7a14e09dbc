//! What stands in the rows that CASESTOVARS makes.
use vstd::prelude::*;

use crate::arith::Style;
use crate::batch::CellView;
use crate::dataset::DatasetView;
use crate::number::{nearest, Number};
use crate::number_law::small;
use crate::text;
use crate::text_order;
use crate::transform::long_law::entry_of;
use crate::transform::merge_law;
use crate::transform::merge_law::entries_of;
use crate::transform::rows;
use crate::transform::wide;
use crate::transform::wide::TargetView;
use crate::value::ValueView;

verus! {

/// The value of the index variable in a row of a group, as part of a name.
pub open spec fn index_in<S: Fn(Number, Style) -> String>(
    ds: DatasetView,
    group: Seq<(usize, usize)>,
    index: int,
    m: int,
    f: S,
) -> Option<Seq<char>> {
    wide::index_text(rows::value_at(ds, group[m], index), f)
}

/// An integer is written in digits, a text as it is; a missing value has no name.
pub proof fn law_index_text<S: Fn(Number, Style) -> String>(n: int, t: Seq<char>, f: S)
    requires
        small(n),
    ensures
        wide::index_text(ValueView::Numeric(nearest(n)), f) == Some(text::decimal_int(n)),
        wide::index_text(ValueView::String(t), f) == Some(t),
        wide::index_text(ValueView::SystemMissing, f) is None,
{
    crate::number::law_small_integers_exact(n);
}

proof fn lemma_present(s: Seq<Option<Seq<char>>>)
    ensures
        forall|t: Seq<char>| #[trigger]
            wide::present(s).contains(t) <==> s.contains(Some(t)),
    decreases s.len(),
{
    if s.len() > 0 {
        let head = s.drop_last();
        lemma_present(head);
        let all = wide::present(s);
        let before = wide::present(head);
        assert forall|t: Seq<char>| #[trigger] all.contains(t) <==> s.contains(Some(t)) by {
            if all.contains(t) {
                let i = choose|i: int| 0 <= i < all.len() && all[i] == t;
                if i < before.len() {
                    assert(before[i] == t);
                    assert(before.contains(t));
                    let j = choose|j: int| 0 <= j < head.len() && head[j] == Some(t);
                    assert(s[j] == Some(t));
                } else {
                    assert(s[s.len() - 1] == Some(t));
                }
            }
            if s.contains(Some(t)) {
                let j = choose|j: int| 0 <= j < s.len() && s[j] == Some(t);
                if j < head.len() {
                    assert(head[j] == Some(t));
                    assert(head.contains(Some(t)));
                    assert(before.contains(t));
                    let i = choose|i: int| 0 <= i < before.len() && before[i] == t;
                    assert(all[i] == t);
                } else {
                    assert(all[before.len() as int] == t);
                }
            }
        }
    }
}

/// There is a new variable for each value that the index variable has in some row,
/// once, in the order of the texts.
pub proof fn law_index_keys<S: Fn(Number, Style) -> String>(ds: DatasetView, index: int, f: S)
    ensures
        ({
            let keys = wide::index_keys(ds, index, f);
            let at = rows::positions(ds);
            &&& keys.no_duplicates()
            &&& text_order::ascending(keys)
            &&& forall|t: Seq<char>| #[trigger]
                keys.contains(t) <==> exists|i: int|
                    0 <= i < at.len() && #[trigger] index_in(ds, at, index, i, f) == Some(t)
        }),
{
    let at = rows::positions(ds);
    let texts = wide::index_texts(ds, at, index, f);
    let there = wide::present(texts);
    let different = rows::distinct(there);
    let keys = wide::index_keys(ds, index, f);
    lemma_present(texts);
    rows::law_distinct(there);
    text_order::law_ordered(different);
    text_order::law_ordered_texts(different);
    assert forall|t: Seq<char>| #[trigger] keys.contains(t) <==> exists|i: int|
        0 <= i < at.len() && #[trigger] index_in(ds, at, index, i, f) == Some(t) by {
        assert(keys.contains(t) <==> different.contains(t));
        assert(there.contains(t) <==> texts.contains(Some(t)));
        if texts.contains(Some(t)) {
            let i = choose|i: int| 0 <= i < texts.len() && texts[i] == Some(t);
            assert(index_in(ds, at, index, i, f) == Some(t));
        }
        if exists|i: int| 0 <= i < at.len() && #[trigger] index_in(ds, at, index, i, f) == Some(t) {
            let i = choose|i: int|
                0 <= i < at.len() && #[trigger] index_in(ds, at, index, i, f) == Some(t);
            assert(texts[i] == Some(t));
        }
    }
}

/// No two new variables have one name.
pub open spec fn names_differ(all: Seq<TargetView>) -> bool {
    forall|a: int, b: int|
        0 <= a < all.len() && 0 <= b < all.len() && (#[trigger] all[a]).name == (
        #[trigger] all[b]).name ==> a == b
}

proof fn lemma_group_part<S: Fn(Number, Style) -> String>(
    ds: DatasetView,
    group: Seq<(usize, usize)>,
    index: int,
    keys: Seq<Seq<char>>,
    all: Seq<TargetView>,
    t: int,
    n: int,
    f: S,
)
    requires
        names_differ(all),
        0 <= t < all.len(),
        0 <= n <= all.len(),
    ensures
        wide::group_part(ds, group, index, keys, all, all[t].name, n, f) == if t < n {
            seq![wide::target_value(ds, group, index, keys, all[t], f)]
        } else {
            Seq::empty()
        },
    decreases n,
{
    if n > 0 {
        lemma_group_part(ds, group, index, keys, all, t, n - 1, f);
        assert(all[n - 1].name == all[t].name <==> n - 1 == t);
        if n - 1 == t {
            assert(Seq::<ValueView>::empty().push(
                wide::target_value(ds, group, index, keys, all[t], f),
            ) =~= seq![wide::target_value(ds, group, index, keys, all[t], f)]);
        }
    }
}

proof fn lemma_named_values<S: Fn(Number, Style) -> String>(
    ds: DatasetView,
    groups: Seq<Seq<(usize, usize)>>,
    index: int,
    keys: Seq<Seq<char>>,
    all: Seq<TargetView>,
    t: int,
    n: int,
    f: S,
)
    requires
        names_differ(all),
        0 <= t < all.len(),
        0 <= n <= groups.len(),
    ensures
        ({
            let vals = wide::named_values(ds, groups, index, keys, all, all[t].name, n, f);
            vals.len() == n && forall|g: int|
                0 <= g < n ==> #[trigger] vals[g] == wide::target_value(
                    ds,
                    groups[g],
                    index,
                    keys,
                    all[t],
                    f,
                )
        }),
    decreases n,
{
    if n > 0 {
        lemma_named_values(ds, groups, index, keys, all, t, n - 1, f);
        lemma_group_part(ds, groups[n - 1], index, keys, all, t, all.len() as int, f);
    }
}

proof fn lemma_last_with(
    texts: Seq<Option<Seq<char>>>,
    at: Seq<(usize, usize)>,
    key: Seq<char>,
    m: int,
)
    requires
        -1 <= m < texts.len(),
        m >= 0 ==> texts[m] == Some(key),
        forall|k: int| m < k < texts.len() ==> #[trigger] texts[k] != Some(key),
    ensures
        wide::last_with(texts, at, key) == if m >= 0 {
            Some(at[m])
        } else {
            None
        },
    decreases texts.len(),
{
    if texts.len() > 0 && m < texts.len() - 1 {
        assert(texts[texts.len() - 1] != Some(key));
        let fewer = texts.drop_last();
        assert forall|k: int| m < k < fewer.len() implies #[trigger] fewer[k] != Some(key) by {
            assert(texts[k] != Some(key));
        }
        lemma_last_with(fewer, at, key, m);
    }
}

/// The last row of a group with a value of the index variable; -1 where there is none.
pub open spec fn is_last<S: Fn(Number, Style) -> String>(
    ds: DatasetView,
    group: Seq<(usize, usize)>,
    index: int,
    key: Seq<char>,
    m: int,
    f: S,
) -> bool {
    &&& -1 <= m < group.len()
    &&& m >= 0 ==> index_in(ds, group, index, m, f) == Some(key)
    &&& forall|k: int|
        m < k < group.len() ==> #[trigger] index_in(ds, group, index, k, f) != Some(key)
}

/// CASESTOVARS gives a row for each group. In it a new variable holds the value that
/// its source has in the last row of the group with its value of the index variable
/// (a number among texts is null), and null where the group has no such row; the
/// variables that tell the groups apart hold their values in the first row.
pub proof fn law_wide_entries<S: Fn(Number, Style) -> String>(
    ds: DatasetView,
    ids: Seq<usize>,
    index: int,
    names: Seq<Seq<char>>,
    f: S,
    out: DatasetView,
    g: int,
    t: int,
    m: int,
)
    requires
        wide::widened_by(ds, ids, index, names, f) == Some(Ok::<DatasetView, Seq<char>>(out)),
        0 <= g < rows::grouped(ds, ids).len(),
        ({
            let keys = wide::index_keys(ds, index, f);
            let all = wide::targets(ds, names, keys, wide::known_count(ds, names));
            &&& names_differ(all)
            &&& 0 <= t < all.len()
            &&& is_last(ds, rows::grouped(ds, ids)[g], index, keys[all[t].key as int], m, f)
        }),
    ensures
        ({
            let keys = wide::index_keys(ds, index, f);
            let all = wide::targets(ds, names, keys, wide::known_count(ds, names));
            let group = rows::grouped(ds, ids)[g];
            let var = out.variables[ids.len() + t];
            &&& var.name == all[t].name
            &&& entries_of(out, ids.len() + t).len() == rows::grouped(ds, ids).len()
            &&& entries_of(out, ids.len() + t)[g] == if m < 0 {
                CellView::Null
            } else {
                let v = rows::value_at(ds, group[m], all[t].source as int);
                if v is Numeric && var.var_type is String {
                    CellView::Null
                } else {
                    entry_of(v)
                }
            }
            &&& forall|i: int|
                0 <= i < ids.len() ==> #[trigger] entries_of(out, i)[g] == rows::cell_in(
                    ds.variables[ids[i] as int].var_type,
                    rows::value_at(ds, group[0], ids[i] as int),
                )
        }),
{
    let keys = wide::index_keys(ds, index, f);
    let all = wide::targets(ds, names, keys, wide::known_count(ds, names));
    let groups = rows::grouped(ds, ids);
    let group = groups[g];
    let columns = wide::wide_columns(ds, ids, index, keys, all, f);
    merge_law::lemma_table_entries(
        wide::wide_variables(ds, ids, index, keys, all, f),
        columns,
        out,
    );
    lemma_named_values(ds, groups, index, keys, all, t, groups.len() as int, f);
    let texts = wide::index_texts(ds, group, index, f);
    let key = keys[all[t].key as int];
    assert forall|k: int| m < k < texts.len() implies #[trigger] texts[k] != Some(key) by {
        assert(index_in(ds, group, index, k, f) != Some(key));
    }
    lemma_last_with(texts, group, key, m);
    let vals = wide::named_values(
        ds,
        groups,
        index,
        keys,
        all,
        all[t].name,
        groups.len() as int,
        f,
    );
    assert(vals[g] == wide::target_value(ds, group, index, keys, all[t], f));
    assert(columns[ids.len() + t] == rows::typed_column(rows::type_of_values(vals), vals));
    assert forall|i: int| 0 <= i < ids.len() implies #[trigger] entries_of(out, i)[g]
        == rows::cell_in(
        ds.variables[ids[i] as int].var_type,
        rows::value_at(ds, group[0], ids[i] as int),
    ) by {
        assert(columns[i] == rows::typed_column(
            ds.variables[ids[i] as int].var_type,
            rows::first_values(ds, groups, ids[i] as int),
        ));
    }
}

/// The new variables: for each variable to spread, in order, one for each value of the
/// index variable, with both in its name.
pub proof fn law_new_variables(
    ds: DatasetView,
    names: Seq<Seq<char>>,
    keys: Seq<Seq<char>>,
    n: int,
    q: int,
    k: int,
)
    requires
        0 <= q < n <= names.len(),
        0 <= k < keys.len(),
        keys.len() <= usize::MAX,
    ensures
        ({
            let all = wide::targets(ds, names, keys, n);
            let i = q * keys.len() + k;
            &&& all.len() == n * keys.len()
            &&& 0 <= i < all.len()
            &&& all[i].name == names[q] + seq!['_'] + keys[k]
            &&& all[i].source == ds.index_of(names[q])->0
            &&& all[i].key == k
        }),
    decreases n,
{
    reveal_strlit("_");
    assert("_"@ =~= seq!['_']);
    let w = keys.len() as int;
    lemma_target_count(ds, names, keys, n - 1);
    lemma_target_count(ds, names, keys, n);
    assert((n - 1) * w + w == n * w) by (nonlinear_arith);
    if q < n - 1 {
        law_new_variables(ds, names, keys, n - 1, q, k);
    } else {
        assert(0 <= (n - 1) * w) by (nonlinear_arith)
            requires
                n >= 1,
                w >= 0,
        ;
    }
}

proof fn lemma_target_count(ds: DatasetView, names: Seq<Seq<char>>, keys: Seq<Seq<char>>, n: int)
    requires
        0 <= n,
    ensures
        wide::targets(ds, names, keys, n).len() == n * keys.len(),
    decreases n,
{
    if n > 0 {
        lemma_target_count(ds, names, keys, n - 1);
        let w = keys.len() as int;
        assert((n - 1) * w + w == n * w) by (nonlinear_arith);
    } else {
        assert(0 * keys.len() == 0);
    }
}

} // verus!
