//! CASESTOVARS undoes VARSTOCASES.
use vstd::prelude::*;

use crate::arith::Style;
use crate::batch;
use crate::batch::{BatchView, ColumnView};
use crate::dataset;
use crate::dataset::DatasetView;
use crate::number;
use crate::number::Number;
use crate::text;
use crate::text_law;
use crate::text_order;
use crate::transform::law;
use crate::transform::long;
use crate::transform::long::TransposeView;
use crate::transform::rows;
use crate::transform::wide;
use crate::transform::wide::TargetView;
use crate::value::ValueView;
use crate::variable;
use crate::variable::{VariableType, VariableView};

verus! {

/// A variable of numbers that can be read in every row.
pub open spec fn numeric_at(ds: DatasetView, idx: int) -> bool {
    &&& 0 <= idx < ds.variables.len()
    &&& ds.variables[idx].var_type is Numeric
    &&& ds.readable(idx)
}

/// A dataset that can be spread over cases and gathered again: it has cases, a
/// numeric variable that tells them apart, and numeric variables to spread, which
/// doubles can count; the names of the result differ.
pub open spec fn reshapable(
    w: DatasetView,
    id: Seq<char>,
    sources: Seq<Seq<char>>,
    target: Seq<char>,
    index: Seq<char>,
) -> bool {
    &&& w.wf()
    &&& w.batches.len() <= usize::MAX
    &&& w.n_cases() > 0
    &&& sources.len() > 0
    &&& sources.len() < 2 * number::FRACTIONS
    &&& w.n_cases() * sources.len() <= usize::MAX
    &&& w.index_of(id) matches Some(i) && numeric_at(w, i as int) && text::uppercase(
        w.variables[i as int].name,
    ) == text::uppercase(id)
    &&& forall|j: int|
        0 <= j < sources.len() ==> (w.index_of(#[trigger] sources[j]) matches Some(i)
            && numeric_at(w, i as int))
    &&& forall|c: int, d: int|
        0 <= c < d < w.n_cases() ==> #[trigger] id_value(w, id, c) != #[trigger] id_value(w, id, d)
    &&& text::uppercase(id) != text::uppercase(target)
    &&& text::uppercase(id) != text::uppercase(index)
    &&& text::uppercase(target) != text::uppercase(index)
}

/// The value of the variable that tells the cases apart in case `c`.
pub open spec fn id_value(w: DatasetView, id: Seq<char>, c: int) -> ValueView {
    rows::value_at(w, rows::positions(w)[c], w.index_of(id)->0 as int)
}

/// The value of the `j`th variable to spread in case `c`.
pub open spec fn source_value(
    w: DatasetView,
    sources: Seq<Seq<char>>,
    c: int,
    j: int,
) -> ValueView {
    rows::value_at(w, rows::positions(w)[c], w.index_of(sources[j])->0 as int)
}

/// The variables of the long form.
spec fn long_variables(
    w: DatasetView,
    id: Seq<char>,
    target: Seq<char>,
    index: Seq<char>,
) -> Seq<VariableView> {
    seq![
        w.variables[w.index_of(id)->0 as int],
        variable::numeric_variable(target),
        variable::numeric_variable(index),
    ]
}

/// The columns of the long form.
spec fn long_columns(w: DatasetView, id: Seq<char>, sources: Seq<Seq<char>>) -> Seq<ColumnView> {
    let at = rows::positions(w);
    let n = sources.len();
    let idxs = rows::indices_of(w, sources);
    seq![
        long::column_at(w, w.index_of(id)->0 as int, long::repeated(at, n)),
        rows::typed_column(VariableType::Numeric, long::row_values(w, at, idxs)),
        rows::typed_column(VariableType::Numeric, long::counters(at.len(), n)),
    ]
}

/// The long form.
spec fn long_form(
    w: DatasetView,
    id: Seq<char>,
    sources: Seq<Seq<char>>,
    target: Seq<char>,
    index: Seq<char>,
) -> DatasetView {
    let vars = long_variables(w, id, target, index);
    dataset::dataset_of(
        vars,
        seq![
            BatchView {
                fields: dataset::fields_for(vars),
                columns: long_columns(w, id, sources),
                num_rows: (w.n_cases() * sources.len()) as usize,
            },
        ],
    )
}

proof fn lemma_cases(w: DatasetView)
    requires
        w.batches.len() <= usize::MAX,
    ensures
        rows::positions(w).len() == w.n_cases(),
        forall|c: int|
            0 <= c < w.n_cases() ==> rows::in_range(w, #[trigger] rows::positions(w)[c]),
{
    rows::lemma_positions(w, w.batches.len() as int);
    assert(w.batches.take(w.batches.len() as int) =~= w.batches);
}

/// A number that can be read is a number or missing.
proof fn lemma_numeric_value(w: DatasetView, p: (usize, usize), idx: int)
    requires
        numeric_at(w, idx),
        rows::in_range(w, p),
    ensures
        !(rows::value_at(w, p, idx) is String),
{
}

proof fn lemma_sources(w: DatasetView, sources: Seq<Seq<char>>, j: int)
    requires
        0 <= j <= sources.len(),
        rows::positions(w).len() > 0,
        rows::in_range(w, rows::positions(w)[0]),
        forall|j: int|
            0 <= j < sources.len() ==> (w.index_of(#[trigger] sources[j]) matches Some(i)
                && numeric_at(w, i as int)),
    ensures
        long::sources_from(w, sources, sources.len() as int, j) == Some(
            Ok::<(), Seq<char>>(()),
        ),
    decreases sources.len() - j,
{
    if j < sources.len() {
        lemma_sources(w, sources, j + 1);
        let i = w.index_of(sources[j])->0;
        assert(numeric_at(w, i as int));
        let p = rows::positions(w)[0];
        assert(w.legible_at(p.0 as int, p.1 as int, i as int));
    }
}

/// The values to spread are numbers or missing.
proof fn lemma_no_text(w: DatasetView, at: Seq<(usize, usize)>, idxs: Seq<usize>)
    requires
        forall|c: int| 0 <= c < at.len() ==> rows::in_range(w, #[trigger] at[c]),
        forall|j: int| 0 <= j < idxs.len() ==> numeric_at(w, #[trigger] idxs[j] as int),
    ensures
        forall|r: int|
            0 <= r < long::row_values(w, at, idxs).len() ==> !((
            #[trigger] long::row_values(w, at, idxs)[r]) is String),
    decreases at.len(),
{
    if at.len() > 0 {
        let head = at.drop_last();
        assert forall|c: int| 0 <= c < head.len() implies rows::in_range(w, #[trigger] head[c]) by {
            assert(head[c] == at[c]);
        }
        lemma_no_text(w, head, idxs);
        let before = long::row_values(w, head, idxs);
        let all = long::row_values(w, at, idxs);
        assert forall|r: int| 0 <= r < all.len() implies !((#[trigger] all[r]) is String) by {
            if r < before.len() {
                assert(all[r] == before[r]);
            } else {
                let j = r - before.len();
                assert(numeric_at(w, idxs[j] as int));
                lemma_numeric_value(w, at[at.len() - 1], idxs[j] as int);
            }
        }
    }
}

proof fn lemma_batch(vars: Seq<VariableView>, columns: Seq<ColumnView>, n: nat)
    requires
        vars.len() == columns.len(),
        vars.len() > 0,
        forall|i: int|
            0 <= i < columns.len() ==> (#[trigger] columns[i]).cells.len() == n && columns[i].kind
                == batch::kind_of_type(vars[i].var_type),
    ensures
        rows::table_of(vars, columns) == Ok::<DatasetView, Seq<char>>(
            dataset::dataset_of(
                vars,
                seq![
                    BatchView {
                        fields: dataset::fields_for(vars),
                        columns,
                        num_rows: n as usize,
                    },
                ],
            ),
        ),
{
    let fields = dataset::fields_for(vars);
    assert(columns[0].cells.len() == n);
    batch::lemma_kind_mismatch(fields, columns, 0);
}

/// What VARSTOCASES gives.
proof fn lemma_long_form(
    w: DatasetView,
    id: Seq<char>,
    sources: Seq<Seq<char>>,
    target: Seq<char>,
    index: Seq<char>,
)
    requires
        reshapable(w, id, sources, target, index),
    ensures
        long::lengthened(
            w,
            seq![TransposeView { target_var: target, source_vars: sources }],
            Some(index),
            seq![id],
        ) == Some(Ok::<DatasetView, Seq<char>>(long_form(w, id, sources, target, index))),
        rows::positions(w).len() == w.n_cases(),
        forall|r: int|
            0 <= r < w.n_cases() * sources.len() ==> !((#[trigger] long::row_values(
                w,
                rows::positions(w),
                rows::indices_of(w, sources),
            )[r]) is String),
{
    let specs = seq![TransposeView { target_var: target, source_vars: sources }];
    let at = rows::positions(w);
    let n = sources.len();
    let idxs = rows::indices_of(w, sources);
    lemma_cases(w);
    let i0 = w.index_of(id)->0;
    let parts = long::long_parts(w, specs, Some(index), seq![id]);
    assert(sources.take(n as int) =~= sources);
    assert(rows::in_range(w, at[0]));
    lemma_sources(w, sources, 0);
    assert forall|j: int| 0 <= j < idxs.len() implies numeric_at(w, #[trigger] idxs[j] as int) by {
        assert(w.index_of(sources[j]) is Some);
    }
    lemma_no_text(w, at, idxs);
    long::lemma_long_len(w, at, idxs);
    let vals = long::row_values(w, at, idxs);
    assert(!rows::has_text(vals));
    assert(rows::usable(w, idxs)) by {
        assert forall|j: int| 0 <= j < idxs.len() implies (#[trigger] idxs[j]) < w.variables.len()
            && w.readable(idxs[j] as int) by {
            assert(numeric_at(w, idxs[j] as int));
        }
    }
    let vars = long_variables(w, id, target, index);
    let columns = long_columns(w, id, sources);
    assert(parts =~= seq![
        Some(Ok::<_, Seq<char>>((vars[0], columns[0]))),
        Some(Ok::<_, Seq<char>>((vars[1], columns[1]))),
        Some(Ok::<_, Seq<char>>((vars[2], columns[2]))),
    ]);
    assert(parts.take(0) =~= Seq::empty());
    rows::lemma_gathered_next(parts, 0);
    rows::lemma_gathered_next(parts, 1);
    rows::lemma_gathered_next(parts, 2);
    assert(parts.take(3) =~= parts);
    let found = rows::gathered(parts)->0->Ok_0;
    assert(long::part_variables(found) =~= vars);
    assert(long::part_columns(found) =~= columns);
    assert(numeric_at(w, i0 as int));
    lemma_batch(vars, columns, w.n_cases() * n);
}

/// Row `c * n + j` of the long form.
spec fn long_row(sources: Seq<Seq<char>>, c: int, j: int) -> (usize, usize) {
    (0usize, (c * sources.len() + j) as usize)
}

proof fn lemma_row_number(m: int, n: int, r: int)
    requires
        0 <= r < m * n,
        n > 0,
    ensures
        0 <= r / n < m,
        0 <= r % n < n,
        r == (r / n) * n + r % n,
{
    vstd::arithmetic::div_mod::lemma_fundamental_div_mod(r, n);
    assert(r == (r / n) * n + r % n) by {
        assert(n * (r / n) == (r / n) * n) by (nonlinear_arith);
    }
    assert(0 <= r / n < m) by (nonlinear_arith)
        requires
            0 <= r < m * n,
            n > 0,
            r == (r / n) * n + r % n,
            0 <= r % n < n,
    ;
}

proof fn lemma_row_in_range(m: int, n: int, c: int, j: int)
    requires
        0 <= c < m,
        0 <= j < n,
    ensures
        0 <= c * n + j < m * n,
        (c * n + j) / n == c,
        (c * n + j) % n == j,
{
    assert(0 <= c * n + j < m * n) by (nonlinear_arith)
        requires
            0 <= c < m,
            0 <= j < n,
    ;
    vstd::arithmetic::div_mod::lemma_fundamental_div_mod_converse(c * n + j, n, c, j);
}

/// The rows of the long form.
proof fn lemma_long_positions(
    w: DatasetView,
    id: Seq<char>,
    sources: Seq<Seq<char>>,
    target: Seq<char>,
    index: Seq<char>,
)
    requires
        reshapable(w, id, sources, target, index),
    ensures
        ({
            let l = long_form(w, id, sources, target, index);
            let m = w.n_cases() * sources.len();
            &&& l.n_cases() == m
            &&& rows::positions(l) == Seq::new(m, |r: int| (0usize, r as usize))
        }),
{
    let l = long_form(w, id, sources, target, index);
    let m = w.n_cases() * sources.len();
    assert(l.batches.drop_last() =~= Seq::empty());
    assert(dataset::rows_in(l.batches.drop_last()) == 0);
    reveal_with_fuel(rows::positions_in, 2);
    assert(rows::positions(l) =~= Seq::new(m, |r: int| (0usize, r as usize)));
}

/// What a row of the long form holds.
proof fn lemma_long_values(
    w: DatasetView,
    id: Seq<char>,
    sources: Seq<Seq<char>>,
    target: Seq<char>,
    index: Seq<char>,
    c: int,
    j: int,
)
    requires
        reshapable(w, id, sources, target, index),
        0 <= c < w.n_cases(),
        0 <= j < sources.len(),
    ensures
        ({
            let l = long_form(w, id, sources, target, index);
            let p = long_row(sources, c, j);
            &&& rows::in_range(l, p)
            &&& p.1 == c * sources.len() + j
            &&& l.legible_at(0, p.1 as int, 0)
            &&& l.legible_at(0, p.1 as int, 1)
            &&& l.legible_at(0, p.1 as int, 2)
            &&& rows::value_at(l, p, 0) == id_value(w, id, c)
            &&& rows::value_at(l, p, 1) == source_value(w, sources, c, j)
            &&& rows::value_at(l, p, 2) == ValueView::Numeric(number::nearest(j + 1))
        }),
{
    let l = long_form(w, id, sources, target, index);
    let at = rows::positions(w);
    let idxs = rows::indices_of(w, sources);
    lemma_cases(w);
    lemma_long_form(w, id, sources, target, index);
    lemma_row_in_range(w.n_cases() as int, sources.len() as int, c, j);
    long::law_long_row(w, at, idxs, c, j);
    let r = c * sources.len() + j;
    let i0 = w.index_of(id)->0;
    assert(numeric_at(w, i0 as int));
    assert(rows::in_range(w, at[c]));
    assert(w.legible_at(at[c].0 as int, at[c].1 as int, i0 as int));
    let columns = long_columns(w, id, sources);
    assert(l.batches[0].columns == columns);
    assert(columns[0].cells[r] == w.batches[at[c].0 as int].columns[i0 as int].cells[at[c].1 as int]);
    let v = long::row_values(w, at, idxs)[r];
    assert(!(v is String));
    assert(columns[1].cells[r] == rows::cell_in(VariableType::Numeric, v));
    assert(columns[2].cells[r] == rows::cell_in(
        VariableType::Numeric,
        ValueView::Numeric(number::nearest(j + 1)),
    ));
}

/// The long form can be read, and its variables are found.
proof fn lemma_long_readable(
    w: DatasetView,
    id: Seq<char>,
    sources: Seq<Seq<char>>,
    target: Seq<char>,
    index: Seq<char>,
)
    requires
        reshapable(w, id, sources, target, index),
    ensures
        ({
            let l = long_form(w, id, sources, target, index);
            &&& l.readable(0)
            &&& l.readable(1)
            &&& l.readable(2)
            &&& l.index_of(id) == Some(0usize)
            &&& l.index_of(target) == Some(1usize)
            &&& l.index_of(index) == Some(2usize)
        }),
{
    let l = long_form(w, id, sources, target, index);
    let m = w.n_cases() as int;
    let n = sources.len() as int;
    assert forall|b: int, r: int, k: int|
        0 <= b < l.batches.len() && 0 <= r < l.batches[b].num_rows && 0 <= k <= 2 implies #[trigger]
    l.legible_at(b, r, k) by {
        lemma_row_number(m, n, r);
        lemma_long_values(w, id, sources, target, index, r / n, r % n);
    }
    let vars = long_variables(w, id, target, index);
    let two = vars.drop_last();
    let one = two.drop_last();
    assert(two =~= seq![vars[0], vars[1]]);
    assert(one =~= seq![vars[0]]);
    assert(one.drop_last() =~= Seq::empty());
    reveal_with_fuel(dataset::names_of, 4);
    assert(dataset::names_of(vars) == Map::<Seq<char>, usize>::empty().insert(
        text::uppercase(vars[0].name),
        0usize,
    ).insert(text::uppercase(target), 1usize).insert(text::uppercase(index), 2usize));
}

/// The different keys of rows that come in blocks of one key each.
proof fn lemma_distinct_blocks(
    keys: Seq<Seq<char>>,
    of: spec_fn(int) -> Seq<char>,
    m: nat,
    n: nat,
)
    requires
        n > 0,
        keys.len() == m * n,
        forall|r: int| 0 <= r < keys.len() ==> #[trigger] keys[r] == of(r / n as int),
        forall|c: int, d: int| 0 <= c < d < m ==> #[trigger] of(c) != #[trigger] of(d),
    ensures
        rows::distinct(keys) == Seq::new(m, of),
    decreases m,
{
    if m == 0 {
        assert(keys.len() == 0) by (nonlinear_arith)
            requires
                keys.len() == m * n,
                m == 0,
        ;
        assert(rows::distinct(keys) =~= Seq::new(m, of));
    } else {
        let k = (m - 1) as nat;
        assert(k * n + n == m * n) by (nonlinear_arith)
            requires
                k == m - 1,
        ;
        assert(k * n >= 0) by (nonlinear_arith)
            requires
                k >= 0,
                n > 0,
        ;
        let before = keys.take((k * n) as int);
        assert forall|r: int| 0 <= r < before.len() implies #[trigger] before[r] == of(
            r / n as int,
        ) by {
            assert(before[r] == keys[r]);
        }
        lemma_distinct_blocks(before, of, k, n);
        assert forall|j: int| 0 <= j < n implies #[trigger] keys[k * n + j] == of(k as int) by {
            lemma_row_in_range(m as int, n as int, k as int, j);
        }
        lemma_distinct_block(keys, of(k as int), (k * n) as int, n as int);
        assert(keys.take(keys.len() as int) =~= keys);
        assert(!rows::distinct(before).contains(of(k as int))) by {
            let d = Seq::new(k, of);
            if d.contains(of(k as int)) {
                let c = choose|c: int| 0 <= c < d.len() && d[c] == of(k as int);
                assert(of(c) != of(k as int));
            }
        }
        assert(rows::distinct(keys) =~= Seq::new(m, of));
    }
}

/// A block of one key adds it once.
proof fn lemma_distinct_block(keys: Seq<Seq<char>>, key: Seq<char>, from: int, n: int)
    requires
        0 <= from,
        1 <= n,
        from + n <= keys.len(),
        forall|j: int| 0 <= j < n ==> #[trigger] keys[from + j] == key,
    ensures
        ({
            let before = rows::distinct(keys.take(from));
            rows::distinct(keys.take(from + n)) == if before.contains(key) {
                before
            } else {
                before.push(key)
            }
        }),
    decreases n,
{
    let now = keys.take(from + n);
    assert(now.drop_last() =~= keys.take(from + n - 1));
    assert(now.last() == keys[from + (n - 1)]);
    if n > 1 {
        lemma_distinct_block(keys, key, from, n - 1);
        let before = rows::distinct(keys.take(from));
        assert(before.push(key)[before.len() as int] == key);
        assert(before.push(key).contains(key));
    }
}

/// The group of each case.
proof fn lemma_long_groups(
    w: DatasetView,
    id: Seq<char>,
    sources: Seq<Seq<char>>,
    target: Seq<char>,
    index: Seq<char>,
)
    requires
        reshapable(w, id, sources, target, index),
    ensures
        ({
            let l = long_form(w, id, sources, target, index);
            let groups = rows::grouped(l, seq![0usize]);
            &&& groups.len() == w.n_cases()
            &&& forall|g: int| 0 <= g < groups.len() ==> #[trigger] is_group(sources, groups[g], g)
        }),
{
    let l = long_form(w, id, sources, target, index);
    let (m, n) = (w.n_cases(), sources.len());
    lemma_long_positions(w, id, sources, target, index);
    let at = rows::positions(l);
    let keys = rows::row_keys(l, at, seq![0usize]);
    let of = |c: int| rows::row_key(l, long_row(sources, c, 0), seq![0usize]);
    assert forall|r: int| 0 <= r < keys.len() implies #[trigger] keys[r] == of(r / n as int) by {
        lemma_row_number(m as int, n as int, r);
        lemma_long_values(w, id, sources, target, index, r / n as int, r % n as int);
        lemma_long_values(w, id, sources, target, index, r / n as int, 0);
        law::law_key_tells_value(l, at[r], 0, l, long_row(sources, r / n as int, 0), 0);
    }
    assert forall|c: int, d: int| 0 <= c < d < m implies #[trigger] of(c) != #[trigger] of(d) by {
        lemma_long_values(w, id, sources, target, index, c, 0);
        lemma_long_values(w, id, sources, target, index, d, 0);
        assert(id_value(w, id, c) != id_value(w, id, d));
        law::law_key_tells_value(l, long_row(sources, c, 0), 0, l, long_row(sources, d, 0), 0);
    }
    lemma_distinct_blocks(keys, of, m, n);
    let groups = rows::grouped(l, seq![0usize]);
    assert forall|g: int| 0 <= g < groups.len() implies #[trigger] is_group(
        sources,
        groups[g],
        g,
    ) by {
        rows::law_members(keys, at, of(g));
        let group = groups[g];
        assert(group == rows::members(keys, at, of(g)));
        lemma_row_in_range(m as int, n as int, g, 0);
        assert(keys[g * n] == of(g));
        assert(keys.contains(of(g)));
        assert forall|k: int| 0 <= k < group.len() implies exists|j: int|
            0 <= j < n && #[trigger] group[k] == #[trigger] long_row(sources, g, j) by {
            let i = choose|i: int|
                0 <= i < keys.len() && (#[trigger] keys[i]) == of(g) && at[i] == group[k];
            lemma_row_number(m as int, n as int, i);
            let c = i / n as int;
            assert(of(c) == of(g));
            if c < g {
                assert(of(c) != of(g));
            } else if g < c {
                assert(of(g) != of(c));
            }
            assert(group[k] == long_row(sources, g, i % n as int));
        }
        assert forall|j: int| 0 <= j < n implies group.contains(
            #[trigger] long_row(sources, g, j),
        ) by {
            lemma_row_in_range(m as int, n as int, g, j);
            assert(keys[g * n + j] == of(g));
            assert(at[g * n + j] == long_row(sources, g, j));
        }
    }
}

/// The rows of case `g`.
spec fn is_group(sources: Seq<Seq<char>>, group: Seq<(usize, usize)>, g: int) -> bool {
    &&& group.len() > 0
    &&& forall|k: int|
        0 <= k < group.len() ==> exists|j: int|
            0 <= j < sources.len() && #[trigger] group[k] == #[trigger] long_row(sources, g, j)
    &&& forall|j: int|
        0 <= j < sources.len() ==> group.contains(#[trigger] long_row(sources, g, j))
}

/// The number of the `j`th variable to spread, as text.
pub open spec fn counter_text(j: int) -> Seq<char> {
    text::decimal((j + 1) as nat)
}

/// The counter of a row as part of a name.
proof fn lemma_counter_text<S: Fn(Number, Style) -> String>(j: int, f: S)
    requires
        0 <= j,
        j + 1 < 2 * number::FRACTIONS,
    ensures
        wide::index_text(ValueView::Numeric(number::nearest(j + 1)), f) == Some(counter_text(j)),
{
    number::law_small_integers_exact(j + 1);
}

/// Different numbers are written differently.
proof fn lemma_told_apart(a: int, b: int)
    requires
        0 <= a,
        0 <= b,
        counter_text(a) == counter_text(b),
    ensures
        a == b,
{
    text_law::law_decimal_value((a + 1) as nat);
    text_law::law_decimal_value((b + 1) as nat);
}

/// The number of one of the variables to spread, as text.
spec fn is_counter(t: Seq<char>, n: int) -> bool {
    exists|j: int| 0 <= j < n && t == #[trigger] counter_text(j)
}

proof fn lemma_present(s: Seq<Option<Seq<char>>>)
    ensures
        forall|t: Seq<char>| #[trigger]
            wide::present(s).contains(t) <==> exists|i: int|
                0 <= i < s.len() && #[trigger] s[i] == Some(t),
    decreases s.len(),
{
    let all = wide::present(s);
    if s.len() > 0 {
        let head = s.drop_last();
        lemma_present(head);
        let before = wide::present(head);
        assert forall|t: Seq<char>| #[trigger] all.contains(t) <==> exists|i: int|
            0 <= i < s.len() && #[trigger] s[i] == Some(t) by {
            if all.contains(t) {
                let k = choose|k: int| 0 <= k < all.len() && all[k] == t;
                if k < before.len() {
                    assert(before[k] == t);
                    assert(before.contains(t));
                    let i = choose|i: int| 0 <= i < head.len() && #[trigger] head[i] == Some(t);
                    assert(s[i] == Some(t));
                } else {
                    assert(s[s.len() - 1] == Some(t));
                }
            }
            if exists|i: int| 0 <= i < s.len() && #[trigger] s[i] == Some(t) {
                let i = choose|i: int| 0 <= i < s.len() && #[trigger] s[i] == Some(t);
                if i == s.len() - 1 {
                    assert(all[before.len() as int] == t);
                } else {
                    assert(head[i] == Some(t));
                    assert(before.contains(t));
                    let k = choose|k: int| 0 <= k < before.len() && before[k] == t;
                    assert(all[k] == t);
                }
            }
        }
    }
}

/// The values of the index variable are the numbers of the variables to spread.
proof fn lemma_long_keys<S: Fn(Number, Style) -> String>(
    w: DatasetView,
    id: Seq<char>,
    sources: Seq<Seq<char>>,
    target: Seq<char>,
    index: Seq<char>,
    f: S,
)
    requires
        reshapable(w, id, sources, target, index),
    ensures
        ({
            let keys = wide::index_keys(long_form(w, id, sources, target, index), 2, f);
            &&& keys.no_duplicates()
            &&& forall|k: int|
                0 <= k < keys.len() ==> is_counter(#[trigger] keys[k], sources.len() as int)
            &&& forall|j: int|
                0 <= j < sources.len() ==> keys.contains(#[trigger] counter_text(j))
        }),
{
    let l = long_form(w, id, sources, target, index);
    let (m, n) = (w.n_cases() as int, sources.len() as int);
    lemma_long_positions(w, id, sources, target, index);
    let at = rows::positions(l);
    let texts = wide::index_texts(l, at, 2, f);
    let found = wide::present(texts);
    let keys = wide::index_keys(l, 2, f);
    lemma_present(texts);
    rows::law_distinct(found);
    text_order::law_ordered_texts(rows::distinct(found));
    assert(keys.no_duplicates());
    assert forall|k: int| 0 <= k < keys.len() implies is_counter(#[trigger] keys[k], n) by {
        assert(keys.contains(keys[k]));
        assert(rows::distinct(found).contains(keys[k]));
        assert(found.contains(keys[k]));
        let r = choose|r: int| 0 <= r < texts.len() && #[trigger] texts[r] == Some(keys[k]);
        lemma_row_number(m, n, r);
        lemma_long_values(w, id, sources, target, index, r / n, r % n);
        lemma_counter_text(r % n, f);
        assert(keys[k] == counter_text(r % n));
    }
    assert forall|j: int| 0 <= j < n implies keys.contains(#[trigger] counter_text(j)) by {
        lemma_row_in_range(m, n, 0, j);
        lemma_long_values(w, id, sources, target, index, 0, j);
        assert(0 * n + j == j);
        lemma_counter_text(j, f);
        assert(texts[j] == Some(counter_text(j)));
        assert(found.contains(counter_text(j)));
        assert(rows::distinct(found).contains(counter_text(j)));
    }
}

/// There are as many values of the index variable as variables to spread.
proof fn lemma_keys_counted(keys: Seq<Seq<char>>, n: int)
    requires
        0 <= n,
        keys.no_duplicates(),
        forall|k: int| 0 <= k < keys.len() ==> is_counter(#[trigger] keys[k], n),
        forall|j: int| 0 <= j < n ==> keys.contains(#[trigger] counter_text(j)),
    ensures
        keys.len() == n,
{
    let all = Seq::new(n as nat, |j: int| counter_text(j));
    assert(all.no_duplicates()) by {
        assert forall|a: int, b: int| 0 <= a < n && 0 <= b < n && a != b implies all[a]
            != all[b] by {
            if counter_text(a) == counter_text(b) {
                lemma_told_apart(a, b);
            }
        }
    }
    assert(keys.to_set() =~= all.to_set()) by {
        assert forall|t: Seq<char>| keys.contains(t) <==> all.contains(t) by {
            if keys.contains(t) {
                let k = choose|k: int| 0 <= k < keys.len() && keys[k] == t;
                assert(is_counter(keys[k], n));
                let j = choose|j: int| 0 <= j < n && t == #[trigger] counter_text(j);
                assert(all[j] == t);
            }
            if all.contains(t) {
                let j = choose|j: int| 0 <= j < n && all[j] == t;
                assert(keys.contains(counter_text(j)));
            }
        }
    }
    keys.unique_seq_to_set();
    all.unique_seq_to_set();
}

proof fn lemma_last_with(
    texts: Seq<Option<Seq<char>>>,
    at: Seq<(usize, usize)>,
    key: Seq<char>,
)
    requires
        texts.len() <= at.len(),
    ensures
        match wide::last_with(texts, at, key) {
            Some(p) => exists|i: int|
                0 <= i < texts.len() && #[trigger] texts[i] == Some(key) && at[i] == p,
            None => forall|i: int| 0 <= i < texts.len() ==> #[trigger] texts[i] != Some(key),
        },
    decreases texts.len(),
{
    if texts.len() > 0 {
        let head = texts.drop_last();
        if texts.last() == Some(key) {
            assert(texts[texts.len() - 1] == Some(key));
        } else {
            lemma_last_with(head, at, key);
            match wide::last_with(head, at, key) {
                Some(p) => {
                    let i = choose|i: int|
                        0 <= i < head.len() && #[trigger] head[i] == Some(key) && at[i] == p;
                    assert(texts[i] == Some(key));
                },
                None => {
                    assert forall|i: int| 0 <= i < texts.len() implies #[trigger] texts[i]
                        != Some(key) by {
                        if i < head.len() {
                            assert(head[i] != Some(key));
                        }
                    }
                },
            }
        }
    }
}

/// The row of a case that has the number of a variable to spread.
proof fn lemma_long_choice<S: Fn(Number, Style) -> String>(
    w: DatasetView,
    id: Seq<char>,
    sources: Seq<Seq<char>>,
    target: Seq<char>,
    index: Seq<char>,
    group: Seq<(usize, usize)>,
    g: int,
    j: int,
    f: S,
)
    requires
        reshapable(w, id, sources, target, index),
        0 <= g < w.n_cases(),
        0 <= j < sources.len(),
        is_group(sources, group, g),
    ensures
        wide::choice(
            long_form(w, id, sources, target, index),
            group,
            2,
            counter_text(j),
            f,
        ) == Some(long_row(sources, g, j)),
{
    let l = long_form(w, id, sources, target, index);
    let texts = wide::index_texts(l, group, 2, f);
    let key = counter_text(j);
    lemma_last_with(texts, group, key);
    assert(group.contains(long_row(sources, g, j)));
    let k = choose|k: int| 0 <= k < group.len() && group[k] == long_row(sources, g, j);
    lemma_long_values(w, id, sources, target, index, g, j);
    lemma_counter_text(j, f);
    assert(texts[k] == Some(key));
    let p = wide::last_with(texts, group, key)->0;
    let i = choose|i: int|
        0 <= i < texts.len() && #[trigger] texts[i] == Some(key) && group[i] == p;
    let x = choose|x: int|
        0 <= x < sources.len() && #[trigger] group[i] == #[trigger] long_row(sources, g, x);
    assert(group[i] == long_row(sources, g, x));
    lemma_long_values(w, id, sources, target, index, g, x);
    lemma_counter_text(x, f);
    assert(texts[i] == Some(counter_text(x)));
    lemma_told_apart(x, j);
}

/// Where the names differ, each has one value for a group.
proof fn lemma_group_part<S: Fn(Number, Style) -> String>(
    ds: DatasetView,
    group: Seq<(usize, usize)>,
    index: int,
    keys: Seq<Seq<char>>,
    all: Seq<TargetView>,
    t: int,
    n: int,
    f: S,
)
    requires
        0 <= t < all.len(),
        0 <= n <= all.len(),
        forall|a: int| 0 <= a < all.len() && a != t ==> (#[trigger] all[a]).name != all[t].name,
    ensures
        wide::group_part(ds, group, index, keys, all, all[t].name, n, f) == if t < n {
            seq![wide::target_value(ds, group, index, keys, all[t], f)]
        } else {
            Seq::empty()
        },
    decreases n,
{
    if n > 0 {
        lemma_group_part(ds, group, index, keys, all, t, n - 1, f);
        assert(n - 1 != t ==> all[n - 1].name != all[t].name);
        let one = seq![wide::target_value(ds, group, index, keys, all[t], f)];
        assert(Seq::empty().push(wide::target_value(ds, group, index, keys, all[t], f)) =~= one);
    }
}

proof fn lemma_named_values<S: Fn(Number, Style) -> String>(
    ds: DatasetView,
    groups: Seq<Seq<(usize, usize)>>,
    index: int,
    keys: Seq<Seq<char>>,
    all: Seq<TargetView>,
    t: int,
    n: int,
    f: S,
)
    requires
        0 <= t < all.len(),
        0 <= n <= groups.len(),
        forall|a: int| 0 <= a < all.len() && a != t ==> (#[trigger] all[a]).name != all[t].name,
    ensures
        wide::named_values(ds, groups, index, keys, all, all[t].name, n, f) == Seq::new(
            n as nat,
            |g: int| wide::target_value(ds, groups[g], index, keys, all[t], f),
        ),
    decreases n,
{
    let now = Seq::new(
        n as nat,
        |g: int| wide::target_value(ds, groups[g], index, keys, all[t], f),
    );
    if n > 0 {
        lemma_named_values(ds, groups, index, keys, all, t, n - 1, f);
        lemma_group_part(ds, groups[n - 1], index, keys, all, t, all.len() as int, f);
        assert(wide::named_values(ds, groups, index, keys, all, all[t].name, n, f) =~= now);
    } else {
        assert(now =~= Seq::empty());
    }
}

proof fn lemma_fewer_present(s: Seq<Option<Seq<char>>>)
    ensures
        wide::present(s).len() <= s.len(),
    decreases s.len(),
{
    if s.len() > 0 {
        lemma_fewer_present(s.drop_last());
    }
}

proof fn lemma_fewer_distinct(s: Seq<Seq<char>>)
    ensures
        rows::distinct(s).len() <= s.len(),
    decreases s.len(),
{
    if s.len() > 0 {
        lemma_fewer_distinct(s.drop_last());
    }
}

/// The values of the index variable can be counted.
proof fn lemma_key_count<S: Fn(Number, Style) -> String>(
    w: DatasetView,
    id: Seq<char>,
    sources: Seq<Seq<char>>,
    target: Seq<char>,
    index: Seq<char>,
    f: S,
)
    requires
        reshapable(w, id, sources, target, index),
    ensures
        wide::index_keys(long_form(w, id, sources, target, index), 2, f).len() <= usize::MAX,
{
    let l = long_form(w, id, sources, target, index);
    lemma_long_positions(w, id, sources, target, index);
    let texts = wide::index_texts(l, rows::positions(l), 2, f);
    lemma_fewer_present(texts);
    lemma_fewer_distinct(wide::present(texts));
    text_order::law_ordered(rows::distinct(wide::present(texts)));
}

/// The variables that are spread have different names, and each takes its values
/// from the variable of its number.
proof fn lemma_wide_values<S: Fn(Number, Style) -> String>(
    w: DatasetView,
    id: Seq<char>,
    sources: Seq<Seq<char>>,
    target: Seq<char>,
    index: Seq<char>,
    t: int,
    f: S,
) -> (j: int)
    requires
        reshapable(w, id, sources, target, index),
        0 <= t < wide::index_keys(long_form(w, id, sources, target, index), 2, f).len(),
    ensures
        ({
            let l = long_form(w, id, sources, target, index);
            let keys = wide::index_keys(l, 2, f);
            let all = wide::targets(l, seq![target], keys, 1);
            let groups = rows::grouped(l, seq![0usize]);
            &&& 0 <= j < sources.len()
            &&& keys[t] == counter_text(j)
            &&& all.len() == keys.len()
            &&& all[t].name == target + "_"@ + keys[t]
            &&& wide::named_values(
                l,
                groups,
                2,
                keys,
                all,
                all[t].name,
                groups.len() as int,
                f,
            ) == Seq::new(w.n_cases(), |c: int| source_value(w, sources, c, j))
        }),
{
    let l = long_form(w, id, sources, target, index);
    let keys = wide::index_keys(l, 2, f);
    lemma_long_keys(w, id, sources, target, index, f);
    lemma_long_readable(w, id, sources, target, index);
    lemma_long_groups(w, id, sources, target, index);
    let all = wide::targets(l, seq![target], keys, 1);
    let groups = rows::grouped(l, seq![0usize]);
    assert(wide::targets(l, seq![target], keys, 0) =~= Seq::empty());
    assert(all =~= Seq::new(
        keys.len(),
        |k: int|
            TargetView { name: target + "_"@ + keys[k], source: 1usize, key: k as usize },
    ));
    lemma_key_count(w, id, sources, target, index, f);
    assert(is_counter(keys[t], sources.len() as int));
    let j = choose|j: int| 0 <= j < sources.len() && keys[t] == #[trigger] counter_text(j);
    assert forall|a: int| 0 <= a < all.len() && a != t implies (#[trigger] all[a]).name
        != all[t].name by {
        let head = target + "_"@;
        if head + keys[a] == head + keys[t] {
            assert(keys[a] =~= (head + keys[a]).skip(head.len() as int));
            assert(keys[t] =~= (head + keys[t]).skip(head.len() as int));
            assert(keys[a] == keys[t]);
        }
    }
    lemma_named_values(l, groups, 2, keys, all, t, groups.len() as int, f);
    let vals = Seq::new(w.n_cases(), |c: int| source_value(w, sources, c, j));
    assert forall|g: int| 0 <= g < groups.len() implies wide::target_value(
        l,
        #[trigger] groups[g],
        2,
        keys,
        all[t],
        f,
    ) == vals[g] by {
        assert(is_group(sources, groups[g], g));
        lemma_long_choice(w, id, sources, target, index, groups[g], g, j, f);
        lemma_long_values(w, id, sources, target, index, g, j);
    }
    assert(Seq::new(
        groups.len(),
        |g: int| wide::target_value(l, groups[g], 2, keys, all[t], f),
    ) =~= vals);
    j
}

/// The rows that the values are taken from can be read.
proof fn lemma_wide_legible<S: Fn(Number, Style) -> String>(
    w: DatasetView,
    id: Seq<char>,
    sources: Seq<Seq<char>>,
    target: Seq<char>,
    index: Seq<char>,
    f: S,
)
    requires
        reshapable(w, id, sources, target, index),
    ensures
        ({
            let l = long_form(w, id, sources, target, index);
            let keys = wide::index_keys(l, 2, f);
            let all = wide::targets(l, seq![target], keys, 1);
            wide::targets_legible(l, rows::grouped(l, seq![0usize]), 2, keys, all, f)
        }),
{
    let l = long_form(w, id, sources, target, index);
    let keys = wide::index_keys(l, 2, f);
    let all = wide::targets(l, seq![target], keys, 1);
    let groups = rows::grouped(l, seq![0usize]);
    lemma_long_keys(w, id, sources, target, index, f);
    lemma_long_readable(w, id, sources, target, index);
    lemma_long_groups(w, id, sources, target, index);
    lemma_key_count(w, id, sources, target, index, f);
    assert(wide::targets(l, seq![target], keys, 0) =~= Seq::empty());
    assert(all =~= Seq::new(
        keys.len(),
        |k: int|
            TargetView { name: target + "_"@ + keys[k], source: 1usize, key: k as usize },
    ));
    assert forall|t: int, g: int|
        0 <= t < all.len() && 0 <= g < groups.len() implies (#[trigger] wide::choice(
        l,
        groups[g],
        2,
        keys[(#[trigger] all[t]).key as int],
        f,
    ) matches Some(p) ==> l.legible_at(p.0 as int, p.1 as int, all[t].source as int)) by {
        assert(is_counter(keys[t], sources.len() as int));
        let j = choose|j: int| 0 <= j < sources.len() && keys[t] == #[trigger] counter_text(j);
        assert(is_group(sources, groups[g], g));
        lemma_long_choice(w, id, sources, target, index, groups[g], g, j, f);
        lemma_long_values(w, id, sources, target, index, g, j);
    }
}

/// The variables of the wide form.
spec fn wide_variables<S: Fn(Number, Style) -> String>(
    w: DatasetView,
    id: Seq<char>,
    l: DatasetView,
    target: Seq<char>,
    f: S,
) -> Seq<VariableView> {
    let keys = wide::index_keys(l, 2, f);
    seq![w.variables[w.index_of(id)->0 as int]] + Seq::new(
        keys.len(),
        |t: int| variable::numeric_variable(target + "_"@ + keys[t]),
    )
}

/// The column of the variable that tells the cases apart.
spec fn id_column(w: DatasetView, id: Seq<char>) -> ColumnView {
    rows::typed_column(
        VariableType::Numeric,
        Seq::new(w.n_cases(), |c: int| id_value(w, id, c)),
    )
}

/// The column of a variable that was spread.
spec fn source_column(w: DatasetView, sources: Seq<Seq<char>>, j: int) -> ColumnView {
    rows::typed_column(
        VariableType::Numeric,
        Seq::new(w.n_cases(), |c: int| source_value(w, sources, c, j)),
    )
}

/// The values of a case are numbers or missing.
proof fn lemma_case_values(
    w: DatasetView,
    id: Seq<char>,
    sources: Seq<Seq<char>>,
    target: Seq<char>,
    index: Seq<char>,
    c: int,
    j: int,
)
    requires
        reshapable(w, id, sources, target, index),
        0 <= c < w.n_cases(),
        0 <= j < sources.len(),
    ensures
        !(id_value(w, id, c) is String),
        !(source_value(w, sources, c, j) is String),
{
    lemma_cases(w);
    assert(rows::in_range(w, rows::positions(w)[c]));
    assert(w.index_of(sources[j]) is Some);
    lemma_numeric_value(w, rows::positions(w)[c], w.index_of(id)->0 as int);
    lemma_numeric_value(w, rows::positions(w)[c], w.index_of(sources[j])->0 as int);
}

/// What CASESTOVARS makes of the long form: the variables, the column of the one
/// that tells the cases apart, and for each variable that was spread its column.
proof fn lemma_wide_form<S: Fn(Number, Style) -> String>(
    w: DatasetView,
    id: Seq<char>,
    sources: Seq<Seq<char>>,
    target: Seq<char>,
    index: Seq<char>,
    f: S,
)
    requires
        reshapable(w, id, sources, target, index),
    ensures
        ({
            let l = long_form(w, id, sources, target, index);
            let keys = wide::index_keys(l, 2, f);
            let all = wide::targets(l, seq![target], keys, 1);
            let columns = wide::wide_columns(l, seq![0usize], 2, keys, all, f);
            let vars = wide_variables(w, id, l, target, f);
            &&& all.len() == keys.len()
            &&& wide::wide_variables(l, seq![0usize], 2, keys, all, f) == vars
            &&& columns.len() == vars.len()
            &&& columns[0] == id_column(w, id)
            &&& forall|t: int|
                0 <= t < keys.len() ==> is_source_column(
                    w,
                    sources,
                    #[trigger] keys[t],
                    columns[t + 1],
                )
        }),
{
    let l = long_form(w, id, sources, target, index);
    let keys = wide::index_keys(l, 2, f);
    let all = wide::targets(l, seq![target], keys, 1);
    let groups = rows::grouped(l, seq![0usize]);
    let columns = wide::wide_columns(l, seq![0usize], 2, keys, all, f);
    let vars = wide::wide_variables(l, seq![0usize], 2, keys, all, f);
    lemma_long_groups(w, id, sources, target, index);
    assert(wide::targets(l, seq![target], keys, 0) =~= Seq::empty());
    assert(all.len() == keys.len());
    let ids = Seq::new(w.n_cases(), |c: int| id_value(w, id, c));
    assert(rows::first_values(l, groups, 0) =~= ids) by {
        assert forall|g: int| 0 <= g < groups.len() implies rows::value_at(
            l,
            #[trigger] groups[g][0],
            0,
        ) == ids[g] by {
            assert(is_group(sources, groups[g], g));
            let j = choose|j: int|
                0 <= j < sources.len() && #[trigger] groups[g][0] == #[trigger] long_row(
                    sources,
                    g,
                    j,
                );
            lemma_long_values(w, id, sources, target, index, g, j);
        }
    }
    let i0 = w.index_of(id)->0;
    assert(numeric_at(w, i0 as int));
    assert(l.variables[0] == w.variables[i0 as int]);
    assert(columns[0] == id_column(w, id));
    assert forall|t: int| 0 <= t < keys.len() implies is_source_column(
        w,
        sources,
        #[trigger] keys[t],
        columns[t + 1],
    ) && vars[t + 1] == variable::numeric_variable(target + "_"@ + keys[t]) by {
        let j = lemma_wide_values(w, id, sources, target, index, t, f);
        let vals = Seq::new(w.n_cases(), |c: int| source_value(w, sources, c, j));
        assert forall|c: int| 0 <= c < vals.len() implies !((#[trigger] vals[c]) is String) by {
            lemma_case_values(w, id, sources, target, index, c, j);
        }
        assert(!rows::has_text(vals));
        assert(columns[t + 1] == source_column(w, sources, j));
        assert(keys[t] == counter_text(j));
    }
    assert(vars =~= wide_variables(w, id, l, target, f)) by {
        assert forall|k: int| 0 <= k < vars.len() implies vars[k] == wide_variables(
            w,
            id,
            l,
            target,
            f,
        )[k] by {
            if k > 0 {
                let t = k - 1;
                assert(keys[t] == keys[t]);
            }
        }
    }
}

/// The column holds what the variable of a number held.
spec fn is_source_column(
    w: DatasetView,
    sources: Seq<Seq<char>>,
    key: Seq<char>,
    column: ColumnView,
) -> bool {
    exists|j: int|
        0 <= j < sources.len() && key == counter_text(j) && column == #[trigger] source_column(
            w,
            sources,
            j,
        )
}

/// In `out` the rows are the cases of `w`, in order: each has its value of the
/// variable that tells the cases apart.
pub open spec fn same_cases(w: DatasetView, id: Seq<char>, out: DatasetView) -> bool {
    &&& out.n_cases() == w.n_cases()
    &&& out.batches.len() == 1
    &&& out.variables.len() > 0
    &&& out.variables[0] == w.variables[w.index_of(id)->0 as int]
    &&& forall|c: int|
        0 <= c < w.n_cases() ==> #[trigger] out.value_at(0, c, 0) == id_value(w, id, c)
}

/// Variable `k` of `out` has the name of the `j`th variable that was spread, and
/// holds in every case what that variable held.
pub open spec fn restores(
    w: DatasetView,
    sources: Seq<Seq<char>>,
    target: Seq<char>,
    out: DatasetView,
    j: int,
    k: int,
) -> bool {
    &&& 1 <= k < out.variables.len()
    &&& out.variables[k].name == target + "_"@ + counter_text(j)
    &&& forall|c: int|
        0 <= c < w.n_cases() ==> #[trigger] out.value_at(0, c, k) == source_value(w, sources, c, j)
}

/// A variable of `out` holds what the `j`th variable that was spread held.
pub open spec fn restored(
    w: DatasetView,
    sources: Seq<Seq<char>>,
    target: Seq<char>,
    out: DatasetView,
    j: int,
) -> bool {
    exists|k: int| #[trigger] restores(w, sources, target, out, j, k)
}

/// CASESTOVARS undoes VARSTOCASES: there is a row for each case, in order, and in it,
/// beside the variable that tells the cases apart, the variable of each number holds
/// what the variable of that number held before it was spread, missing for missing.
pub proof fn law_reshape_is_undone<S: Fn(Number, Style) -> String>(
    w: DatasetView,
    id: Seq<char>,
    sources: Seq<Seq<char>>,
    target: Seq<char>,
    index: Seq<char>,
    f: S,
)
    requires
        reshapable(w, id, sources, target, index),
    ensures
        ({
            let specs = seq![TransposeView { target_var: target, source_vars: sources }];
            long::lengthened(w, specs, Some(index), seq![id]) matches Some(Ok(l)) && {
                wide::widened(l, seq![id], index, seq![target], f) matches Some(Ok(out)) && {
                    &&& same_cases(w, id, out)
                    &&& out.variables.len() == 1 + sources.len()
                    &&& forall|j: int|
                        0 <= j < sources.len() ==> #[trigger] restored(
                            w,
                            sources,
                            target,
                            out,
                            j,
                        )
                }
            }
        }),
{
    let l = long_form(w, id, sources, target, index);
    lemma_long_form(w, id, sources, target, index);
    lemma_long_readable(w, id, sources, target, index);
    lemma_wide_legible(w, id, sources, target, index, f);
    lemma_wide_form(w, id, sources, target, index, f);
    let keys = wide::index_keys(l, 2, f);
    let all = wide::targets(l, seq![target], keys, 1);
    let columns = wide::wide_columns(l, seq![0usize], 2, keys, all, f);
    let vars = wide_variables(w, id, l, target, f);
    rows::lemma_first_missing(l, seq![id], 0);
    rows::lemma_first_missing(l, seq![target], 0);
    assert(seq![id][0] == id);
    assert(seq![target][0] == target);
    assert(rows::indices_of(l, seq![id]) =~= seq![0usize]);
    assert(rows::usable(l, seq![0usize]));
    assert(numeric_at(w, w.index_of(id)->0 as int));
    assert forall|k: int| 0 <= k < columns.len() implies (#[trigger] columns[k]).cells.len()
        == w.n_cases() && columns[k].kind == batch::kind_of_type(vars[k].var_type) by {
        if k > 0 {
            assert(is_source_column(w, sources, keys[k - 1], columns[k - 1 + 1]));
        }
    }
    lemma_cases(w);
    lemma_batch(vars, columns, w.n_cases());
    let out = rows::table_of(vars, columns)->Ok_0;
    assert(wide::widened(l, seq![id], index, seq![target], f) == Some(
        Ok::<DatasetView, Seq<char>>(out),
    ));
    lemma_out_cases(w, id, sources, target, index, out, vars, columns);
    lemma_long_keys(w, id, sources, target, index, f);
    lemma_keys_counted(keys, sources.len() as int);
    assert forall|j: int| 0 <= j < sources.len() implies #[trigger] restored(
        w,
        sources,
        target,
        out,
        j,
    ) by {
        assert(keys.contains(counter_text(j)));
        let t = choose|t: int| 0 <= t < keys.len() && keys[t] == counter_text(j);
        assert(is_source_column(w, sources, keys[t], columns[t + 1]));
        let x = choose|x: int|
            0 <= x < sources.len() && keys[t] == counter_text(x) && columns[t + 1]
                == #[trigger] source_column(w, sources, x);
        lemma_told_apart(x, j);
        assert forall|c: int| 0 <= c < w.n_cases() implies #[trigger] out.value_at(0, c, t + 1)
            == source_value(w, sources, c, j) by {
            lemma_case_values(w, id, sources, target, index, c, j);
            assert(columns[t + 1].cells[c] == rows::cell_in(
                VariableType::Numeric,
                source_value(w, sources, c, j),
            ));
        }
        assert(restores(w, sources, target, out, j, t + 1));
    }
}

/// The rows of the wide form are the cases.
proof fn lemma_out_cases(
    w: DatasetView,
    id: Seq<char>,
    sources: Seq<Seq<char>>,
    target: Seq<char>,
    index: Seq<char>,
    out: DatasetView,
    vars: Seq<VariableView>,
    columns: Seq<ColumnView>,
)
    requires
        reshapable(w, id, sources, target, index),
        vars.len() > 0,
        columns.len() > 0,
        vars[0] == w.variables[w.index_of(id)->0 as int],
        columns[0] == id_column(w, id),
        out == dataset::dataset_of(
            vars,
            seq![
                BatchView {
                    fields: dataset::fields_for(vars),
                    columns,
                    num_rows: w.n_cases() as usize,
                },
            ],
        ),
    ensures
        same_cases(w, id, out),
{
    assert(out.batches.drop_last() =~= Seq::empty());
    assert(dataset::rows_in(out.batches.drop_last()) == 0);
    assert(w.n_cases() <= usize::MAX) by (nonlinear_arith)
        requires
            w.n_cases() * sources.len() <= usize::MAX,
            sources.len() > 0,
    ;
    let i0 = w.index_of(id)->0;
    assert(numeric_at(w, i0 as int));
    assert forall|c: int| 0 <= c < w.n_cases() implies #[trigger] out.value_at(0, c, 0)
        == id_value(w, id, c) by {
        lemma_case_values(w, id, sources, target, index, c, 0);
        assert(columns[0].cells[c] == rows::cell_in(VariableType::Numeric, id_value(w, id, c)));
    }
}

} // verus!
