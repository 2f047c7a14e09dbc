//! A dataset that was written is read back.
use vstd::prelude::*;
use vstd::utf8::encode_utf8;

use crate::arith::NumOp;
use crate::batch;
use crate::batch::{BatchView, CellView};
use crate::dataset;
use crate::dataset::DatasetView;
use crate::number;
use crate::number::Number;
use crate::sav::bytes;
use crate::sav::bytes::SavError;
use crate::sav::data_law;
use crate::sav::dictionary_law;
use crate::sav::reader;
use crate::sav::reader::{DictionaryView, RecordView, RowView, SavHeader, StreamView};
use crate::sav::row_law;
use crate::sav::writer;
use crate::text;
use crate::text_law;
use crate::value::ValueView;
use crate::variable::VariableView;

verus! {

/// Several continuation records.
pub open spec fn continuation_records(n: int) -> Seq<RecordView> {
    Seq::new(n as nat, |i: int| dictionary_law::continuation_record())
}

/// The records of the first `n` variables as they are read, without value labels.
pub open spec fn bare_records(vars: Seq<VariableView>, n: int) -> Seq<RecordView>
    decreases n,
{
    if n <= 0 {
        Seq::empty()
    } else {
        bare_records(vars, n - 1).push(dictionary_law::bare_record(vars[n - 1], n - 1))
            + continuation_records(writer::continuations(vars[n - 1].var_type))
    }
}

/// The records of all variables with the value labels of the first `n`.
pub open spec fn labelled_records(vars: Seq<VariableView>, n: int) -> Seq<RecordView>
    decreases n,
{
    if n <= 0 {
        bare_records(vars, vars.len() as int)
    } else {
        reader::labelled(
            labelled_records(vars, n - 1),
            writer::record_count(vars, n - 1),
            dictionary_law::filed_labels(vars[n - 1].value_labels),
        )
    }
}

/// The long names of the first `n` variables.
pub open spec fn long_names(vars: Seq<VariableView>, n: int) -> Map<Seq<char>, Seq<char>>
    decreases n,
{
    if n <= 0 {
        Map::empty()
    } else if writer::plain_name(vars[n - 1].name) {
        long_names(vars, n - 1)
    } else {
        long_names(vars, n - 1).insert(
            writer::generated_name(n - 1),
            text::trimmed(vars[n - 1].name),
        )
    }
}

/// A variable as it comes back: a plain name in upper case, another name without
/// white space around it, its type, measurement level and display format, and the
/// labels and missing values as far as a file holds them.
pub open spec fn stored_variable(v: VariableView) -> VariableView {
    VariableView {
        name: if writer::plain_name(v.name) {
            text::uppercase(v.name)
        } else {
            text::trimmed(v.name)
        },
        var_type: v.var_type,
        measure: v.measure,
        label: dictionary_law::stored_label(v.label),
        value_labels: dictionary_law::stored_labels(v.value_labels),
        missing: dictionary_law::stored_missing(v.missing),
        print_width: v.print_width,
        print_decimals: v.print_decimals,
    }
}

/// The variables as they come back.
pub open spec fn stored_variables(vars: Seq<VariableView>) -> Seq<VariableView> {
    Seq::new(vars.len(), |i: int| stored_variable(vars[i]))
}

/// The long names that are found in the record of the variables, whatever the
/// names hold.
pub open spec fn found_names(vars: Seq<VariableView>) -> Map<Seq<char>, Seq<char>> {
    let entries = writer::long_entries(vars, vars.len() as int);
    if entries.len() == 0 {
        Map::empty()
    } else {
        reader::names_and(
            Map::empty(),
            text::pieces(text::trimmed_end(text::joined(entries, "\t"@) + "\t"@), '\t'),
        )
    }
}

/// The name under which the `i`th variable is found.
pub open spec fn found_name(vars: Seq<VariableView>, i: int) -> Seq<char> {
    let name = dictionary_law::filed_name(vars[i].name, i);
    let key = text::uppercase(name);
    if found_names(vars).contains_key(key) {
        found_names(vars)[key]
    } else {
        name
    }
}

/// The variables as they are found: those that come back, each under the name that
/// is found for it.
pub open spec fn found_variables(vars: Seq<VariableView>) -> Seq<VariableView> {
    Seq::new(
        vars.len(),
        |i: int| VariableView { name: found_name(vars, i), ..stored_variable(vars[i]) },
    )
}

/// The first `n` entries of a variable in a batch, as they come back.
pub open spec fn stored_batch<F: Fn(NumOp) -> Number>(
    ds: DatasetView,
    i: int,
    b: int,
    n: int,
    calc: F,
) -> Seq<CellView> {
    Seq::new(
        n as nat,
        |r: int|
            reader::cell_of(
                row_law::stored_value(
                    ds.variables[i].var_type,
                    ds.batches[b].columns[i].cells[r],
                    calc,
                ),
            ),
    )
}

/// The entries of a variable in the first `n` batches, as they come back.
pub open spec fn stored_column<F: Fn(NumOp) -> Number>(
    ds: DatasetView,
    i: int,
    n: int,
    calc: F,
) -> Seq<CellView>
    decreases n,
{
    if n <= 0 {
        Seq::empty()
    } else {
        stored_column(ds, i, n - 1, calc) + stored_batch(
            ds,
            i,
            n - 1,
            ds.batches[n - 1].num_rows as int,
            calc,
        )
    }
}

/// The columns of all variables, as they come back.
pub open spec fn stored_columns<F: Fn(NumOp) -> Number>(ds: DatasetView, calc: F) -> Seq<
    Seq<CellView>,
> {
    Seq::new(
        ds.variables.len(),
        |i: int| stored_column(ds, i, ds.batches.len() as int, calc),
    )
}

/// A dataset as it comes back: the stored variables, and all cases in one batch.
pub open spec fn stored_dataset<F: Fn(NumOp) -> Number>(ds: DatasetView, calc: F) -> DatasetView {
    dataset_with(stored_variables(ds.variables), ds, calc)
}

/// A dataset as it is found, whatever the names hold.
pub open spec fn found_dataset<F: Fn(NumOp) -> Number>(ds: DatasetView, calc: F) -> DatasetView {
    dataset_with(found_variables(ds.variables), ds, calc)
}

/// The cases as they come back under some variables, in one batch.
pub open spec fn dataset_with<F: Fn(NumOp) -> Number>(
    vars: Seq<VariableView>,
    ds: DatasetView,
    calc: F,
) -> DatasetView {
    dataset::dataset_of(
        vars,
        seq![
            BatchView {
                fields: dataset::fields_for(vars),
                columns: reader::columns_for(vars, stored_columns(ds, calc)),
                num_rows: ds.n_cases() as usize,
            },
        ],
    )
}

/// A dataset that a file can hold, whatever the names: there is a variable, each has
/// a form that a file can hold, and the counts fit in 32 bits.
pub open spec fn holdable(ds: DatasetView) -> bool {
    let vars = ds.variables;
    let n = vars.len() as int;
    &&& ds.wf()
    &&& writer::all_writable(ds)
    &&& n > 0
    &&& ds.n_cases() <= i32::MAX
    &&& writer::record_count(vars, n) < i32::MAX
    &&& writer::names_bytes(writer::long_entries(vars, n)).len() <= i32::MAX
    &&& forall|i: int| 0 <= i < n ==> dictionary_law::storable_variable(#[trigger] vars[i])
}

/// Names that a file can hold: each can be stored, and no plain name is one that is
/// generated for another variable.
pub open spec fn names_kept(vars: Seq<VariableView>) -> bool {
    &&& forall|i: int|
        0 <= i < vars.len() ==> dictionary_law::storable_name((#[trigger] vars[i]).name, i)
    &&& forall|i: int, j: int|
        0 <= i < vars.len() && 0 <= j < vars.len() && writer::plain_name((#[trigger] vars[i]).name)
            && !writer::plain_name((#[trigger] vars[j]).name) ==> text::uppercase(vars[i].name)
            != writer::generated_name(j)
}

/// A dataset that a file can hold with its names.
pub open spec fn storable(ds: DatasetView) -> bool {
    holdable(ds) && names_kept(ds.variables)
}

pub proof fn lemma_record_count(vars: Seq<VariableView>, n: int, m: int)
    requires
        0 <= n <= m,
    ensures
        0 <= writer::record_count(vars, n) <= writer::record_count(vars, m),
        n < m ==> writer::record_count(vars, n) + 1 + writer::continuations(vars[n].var_type)
            <= writer::record_count(vars, m),
    decreases m,
{
    if n < m {
        lemma_record_count(vars, n, m - 1);
    } else if n > 0 {
        lemma_record_count(vars, n - 1, n - 1);
    }
}

/// Each variable has a record.
proof fn lemma_record_count_covers(vars: Seq<VariableView>, n: int)
    requires
        0 <= n,
    ensures
        n <= writer::record_count(vars, n),
    decreases n,
{
    if n > 0 {
        lemma_record_count_covers(vars, n - 1);
    }
}

/// Where the records of each variable stand.
pub open spec fn laid_out(records: Seq<RecordView>, vars: Seq<VariableView>, n: int) -> bool {
    &&& records.len() == writer::record_count(vars, n)
    &&& forall|i: int| 0 <= i < n ==> #[trigger] variable_at(records, vars, i)
}

/// The record of a variable and its continuations are at their place.
pub open spec fn variable_at(records: Seq<RecordView>, vars: Seq<VariableView>, i: int) -> bool {
    let k = writer::record_count(vars, i);
    &&& records[k] == (RecordView {
        value_labels: records[k].value_labels,
        ..dictionary_law::bare_record(vars[i], i)
    })
    &&& forall|j: int|
        k < j < k + 1 + writer::continuations(vars[i].var_type) ==> (
        #[trigger] records[j]).is_continuation
}

proof fn lemma_bare_layout(vars: Seq<VariableView>, n: int)
    requires
        0 <= n <= vars.len(),
    ensures
        laid_out(bare_records(vars, n), vars, n),
        forall|i: int|
            0 <= i < n ==> (#[trigger] bare_records(vars, n)[writer::record_count(vars, i)])
                == dictionary_law::bare_record(vars[i], i),
    decreases n,
{
    if n > 0 {
        lemma_bare_layout(vars, n - 1);
        let before = bare_records(vars, n - 1);
        let now = bare_records(vars, n);
        let k = writer::record_count(vars, n - 1);
        assert(now[k] == dictionary_law::bare_record(vars[n - 1], n - 1));
        assert forall|i: int| 0 <= i < n implies (
        #[trigger] now[writer::record_count(vars, i)]) == dictionary_law::bare_record(vars[i], i) by {
            if i < n - 1 {
                lemma_record_count(vars, i, n - 1);
                assert(now[writer::record_count(vars, i)] == before[writer::record_count(vars, i)]);
            }
        }
        assert forall|i: int| 0 <= i < n implies #[trigger] variable_at(now, vars, i) by {
            let m = writer::record_count(vars, i);
            assert(now[writer::record_count(vars, i)] == dictionary_law::bare_record(vars[i], i));
            if i < n - 1 {
                lemma_record_count(vars, i, n - 1);
                assert(variable_at(before, vars, i));
                assert forall|j: int|
                    m < j < m + 1 + writer::continuations(vars[i].var_type) implies (
                #[trigger] now[j]).is_continuation by {
                    assert(now[j] == before[j]);
                }
            }
        }
    }
}

/// The value labels change nothing else, and each variable has its own.
pub proof fn lemma_labelled_layout(vars: Seq<VariableView>, n: int)
    requires
        0 <= n <= vars.len(),
    ensures
        laid_out(labelled_records(vars, n), vars, vars.len() as int),
        forall|i: int|
            0 <= i < vars.len() ==> (#[trigger] labelled_records(
                vars,
                n,
            )[writer::record_count(vars, i)]).value_labels == if i < n {
                dictionary_law::stored_labels(vars[i].value_labels)
            } else {
                Seq::empty()
            },
    decreases n,
{
    let total = vars.len() as int;
    lemma_bare_layout(vars, total);
    if n <= 0 {
        let all = bare_records(vars, total);
        assert forall|i: int| 0 <= i < total implies (
        #[trigger] all[writer::record_count(vars, i)]).value_labels == Seq::<
            (i64, Seq<char>),
        >::empty() by {
            assert(all[writer::record_count(vars, i)] == dictionary_law::bare_record(vars[i], i));
        }
    } else {
        lemma_labelled_layout(vars, n - 1);
        let before = labelled_records(vars, n - 1);
        let now = labelled_records(vars, n);
        let k = writer::record_count(vars, n - 1);
        lemma_record_count(vars, n - 1, total);
        assert(before[writer::record_count(vars, n - 1)].value_labels == Seq::<
            (i64, Seq<char>),
        >::empty());
        assert forall|i: int| 0 <= i < total implies (
        #[trigger] now[writer::record_count(vars, i)]).value_labels == if i < n {
            dictionary_law::stored_labels(vars[i].value_labels)
        } else {
            Seq::empty()
        } by {
            let m = writer::record_count(vars, i);
            assert(before[writer::record_count(vars, i)].value_labels == if i < n - 1 {
                dictionary_law::stored_labels(vars[i].value_labels)
            } else {
                Seq::empty()
            });
            if i < n - 1 {
                lemma_record_count(vars, i, n - 1);
            } else if i > n - 1 {
                lemma_record_count(vars, n - 1, i);
            }
            lemma_record_count(vars, i, total);
        }
        assert forall|i: int| 0 <= i < total implies #[trigger] variable_at(now, vars, i) by {
            assert(variable_at(before, vars, i));
            let m = writer::record_count(vars, i);
            lemma_record_count(vars, i, total);
            assert forall|j: int|
                m < j < m + 1 + writer::continuations(vars[i].var_type) implies (
            #[trigger] now[j]).is_continuation by {
                assert(before[j].is_continuation);
                if j == k {
                    assert(variable_at(before, vars, n - 1));
                }
            }
        }
    }
}

/// The dictionary without value labels and long names.
pub open spec fn with_records(records: Seq<RecordView>) -> DictionaryView {
    DictionaryView { records, ..reader::empty_dictionary() }
}

proof fn lemma_continuations_read(s: Seq<u8>, p: int, n: int, records: Seq<RecordView>)
    requires
        0 <= n,
        bytes::holds_at(s, p, writer::continuation_run(n)),
    ensures
        reader::dictionary_at(s, p, with_records(records)) == reader::dictionary_at(
            s,
            p + writer::continuation_run(n).len(),
            with_records(records + continuation_records(n)),
        ),
    decreases n,
{
    if n == 0 {
        assert(records + continuation_records(0) =~= records);
    } else {
        let before = writer::continuation_run(n - 1);
        bytes::lemma_holds_split(s, p, before, writer::continuation_bytes());
        lemma_continuations_read(s, p, n - 1, records);
        let q = p + before.len();
        dictionary_law::lemma_continuation_read_back(s, q);
        let so_far = records + continuation_records(n - 1);
        assert(so_far.push(dictionary_law::continuation_record()) =~= records
            + continuation_records(n));
    }
}

proof fn lemma_variables_read(s: Seq<u8>, p: int, vars: Seq<VariableView>, n: int)
    requires
        0 <= n <= vars.len(),
        forall|i: int|
            0 <= i < vars.len() ==> dictionary_law::storable_variable(#[trigger] vars[i]),
        bytes::holds_at(s, p, writer::variable_bytes(vars, n)),
    ensures
        reader::dictionary_at(s, p, with_records(Seq::empty())) == reader::dictionary_at(
            s,
            p + writer::variable_bytes(vars, n).len(),
            with_records(bare_records(vars, n)),
        ),
    decreases n,
{
    if n > 0 {
        let before = writer::variable_bytes(vars, n - 1);
        let rec = writer::record_bytes(vars[n - 1], n - 1);
        let run = writer::continuation_run(writer::continuations(vars[n - 1].var_type));
        bytes::lemma_holds_split(s, p, before + rec, run);
        bytes::lemma_holds_split(s, p, before, rec);
        lemma_variables_read(s, p, vars, n - 1);
        let q = p + before.len();
        dictionary_law::lemma_record_read_back(s, q, vars[n - 1], n - 1);
        let so_far = bare_records(vars, n - 1).push(
            dictionary_law::bare_record(vars[n - 1], n - 1),
        );
        assert(reader::dictionary_at(s, q, with_records(bare_records(vars, n - 1)))
            == reader::dictionary_at(s, q + rec.len(), with_records(so_far)));
        lemma_continuations_read(
            s,
            q + rec.len(),
            writer::continuations(vars[n - 1].var_type),
            so_far,
        );
    }
}

proof fn lemma_value_label_read(s: Seq<u8>, p: int, key: i64, t: Seq<char>)
    requires
        bytes::holds_at(s, p, writer::value_label_bytes(key, t)),
    ensures
        p + 9 <= s.len(),
        ({
            let len = s[p + 8] as int;
            &&& p + 8 + reader::padded8(len + 1) == p + writer::value_label_bytes(key, t).len()
            &&& p + 8 + reader::padded8(len + 1) <= s.len()
            &&& bytes::number_at(s, p) == number::nearest(key as int)
            &&& bytes::text_at(s, p + 9, len) == text::trimmed_end(
                text::lossy_text(writer::label_part(t)),
            )
        }),
{
    let b = writer::label_part(t);
    let n = b.len() as int;
    let value = bytes::le8(number::nearest(key as int));
    let pad = bytes::run_of(0, (reader::padded8(n + 1) - (n + 1)) as nat);
    let head = value + seq![n as u8];
    bytes::lemma_holds_split(s, p, head + b, pad);
    bytes::lemma_holds_split(s, p, head, b);
    bytes::lemma_holds_split(s, p, value, seq![n as u8]);
    bytes::law_double_read_back(s, p, number::nearest(key as int));
    assert(s.subrange(p + 8, p + 9)[0] == s[p + 8]);
    assert(s.subrange(p + 9, p + 9 + n) == b);
}

proof fn lemma_value_labels_read(
    s: Seq<u8>,
    p: int,
    labels: Seq<(i64, Seq<char>)>,
    count: nat,
    acc: Seq<(Number, Seq<char>)>,
)
    requires
        bytes::holds_at(s, p, writer::value_labels_bytes(labels)),
    ensures
        reader::labels_at(s, p, labels.len() + count, acc) == reader::labels_at(
            s,
            p + writer::value_labels_bytes(labels).len(),
            count,
            acc + dictionary_law::filed_labels(labels),
        ),
    decreases labels.len(),
{
    if labels.len() == 0 {
        assert(acc + dictionary_law::filed_labels(labels) =~= acc);
    } else {
        let before = labels.drop_last();
        let (key, t) = labels.last();
        bytes::lemma_holds_split(
            s,
            p,
            writer::value_labels_bytes(before),
            writer::value_label_bytes(key, t),
        );
        lemma_value_labels_read(s, p, before, count + 1, acc);
        let q = p + writer::value_labels_bytes(before).len();
        lemma_value_label_read(s, q, key, t);
        let so_far = acc + dictionary_law::filed_labels(before);
        assert(so_far.push((bytes::number_at(s, q), bytes::text_at(s, q + 9, s[q + 8] as int)))
            =~= acc + dictionary_law::filed_labels(labels));
        assert(before.len() + (count + 1) == labels.len() + count);
    }
}

proof fn lemma_counts_agree(vars: Seq<VariableView>, n: int)
    requires
        0 <= n <= vars.len(),
        forall|i: int|
            0 <= i < vars.len() ==> dictionary_law::storable_variable(#[trigger] vars[i]),
    ensures
        writer::block_count(vars, n) == writer::record_count(vars, n),
    decreases n,
{
    if n > 0 {
        lemma_counts_agree(vars, n - 1);
        assert(dictionary_law::storable_variable(vars[n - 1]));
    }
}

/// Where the parts of value label records stand.
proof fn lemma_label_record_parts(s: Seq<u8>, p: int, v: VariableView, at: int)
    requires
        0 < v.value_labels.len() <= i32::MAX,
        0 <= at < i32::MAX,
        bytes::holds_at(s, p, writer::label_record_bytes(v, at)),
    ensures
        ({
            let n = v.value_labels.len() as int;
            let q = p + 8 + writer::value_labels_bytes(v.value_labels).len();
            &&& 0 <= p
            &&& bytes::i32_at(s, p) == 3
            &&& bytes::i32_at(s, p + 4) == n
            &&& bytes::holds_at(s, p + 8, writer::value_labels_bytes(v.value_labels))
            &&& bytes::i32_at(s, q) == 4
            &&& bytes::i32_at(s, q + 4) == 1
            &&& bytes::i32_at(s, q + 8) == at + 1
            &&& q + 12 == p + writer::label_record_bytes(v, at).len()
            &&& q + 12 <= s.len()
        }),
{
    let labels = v.value_labels;
    let n = labels.len() as int;
    let a = bytes::le4(3);
    let b = a + bytes::le4(n);
    let c = b + writer::value_labels_bytes(labels);
    let d = c + bytes::le4(4);
    let e = d + bytes::le4(1);
    bytes::lemma_holds_split(s, p, e, bytes::le4(at + 1));
    bytes::lemma_holds_split(s, p, d, bytes::le4(1));
    bytes::lemma_holds_split(s, p, c, bytes::le4(4));
    bytes::lemma_holds_split(s, p, b, writer::value_labels_bytes(labels));
    bytes::lemma_holds_split(s, p, a, bytes::le4(n));
    bytes::law_integer_read_back(s, p, 3);
    bytes::law_integer_read_back(s, p + 4, n);
    let q = p + c.len();
    bytes::law_integer_read_back(s, q, 4);
    bytes::law_integer_read_back(s, q + 4, 1);
    bytes::law_integer_read_back(s, q + 8, at + 1);
}

/// The value label records of a variable are read back.
proof fn lemma_label_record_read(
    s: Seq<u8>,
    p: int,
    v: VariableView,
    at: int,
    records: Seq<RecordView>,
)
    requires
        v.value_labels.len() <= i32::MAX,
        0 <= at < i32::MAX,
        at < records.len(),
        records[at].value_labels.len() == 0,
        bytes::holds_at(s, p, writer::label_record_bytes(v, at)),
    ensures
        reader::dictionary_at(s, p, with_records(records)) == reader::dictionary_at(
            s,
            p + writer::label_record_bytes(v, at).len(),
            with_records(
                reader::labelled(records, at, dictionary_law::filed_labels(v.value_labels)),
            ),
        ),
{
    let labels = v.value_labels;
    let filed = dictionary_law::filed_labels(labels);
    let after = reader::labelled(records, at, filed);
    if labels.len() == 0 {
        assert(filed =~= Seq::empty());
        assert(reader::labels_and(records[at].value_labels, filed) == records[at].value_labels);
        assert(after =~= records);
    } else {
        let n = labels.len() as int;
        lemma_label_record_parts(s, p, v, at);
        let q = p + 8 + writer::value_labels_bytes(labels).len();
        lemma_value_labels_read(s, p + 8, labels, 0, Seq::empty());
        assert(Seq::empty() + filed =~= filed);
        assert(reader::labels_at(s, p + 8, n as nat, Seq::empty()) == Ok::<_, SavError>(
            (filed, q),
        ));
        lemma_one_target(s, q + 8, at, records, filed);
        assert(reader::value_labels_at(s, p + 4, records) == Ok::<_, SavError>((after, q + 12)));
        assert(reader::dictionary_step(s, p, with_records(records)) == Ok::<_, SavError>(
            (with_records(after), q + 12),
        ));
    }
}

proof fn lemma_one_target(
    s: Seq<u8>,
    p: int,
    at: int,
    records: Seq<RecordView>,
    new: Seq<(Number, Seq<char>)>,
)
    requires
        p + 4 <= s.len(),
        0 <= at,
        bytes::i32_at(s, p) == at + 1,
    ensures
        reader::targets_at(s, p, 1, records, new) == Ok::<_, SavError>(
            (reader::labelled(records, at, new), p + 4),
        ),
{
    reveal_with_fuel(reader::targets_at, 2);
}

proof fn lemma_label_records_read(s: Seq<u8>, p: int, vars: Seq<VariableView>, n: int)
    requires
        0 <= n <= vars.len(),
        forall|i: int|
            0 <= i < vars.len() ==> dictionary_law::storable_variable(#[trigger] vars[i]),
        writer::record_count(vars, vars.len() as int) < i32::MAX,
        bytes::holds_at(s, p, writer::label_records_bytes(vars, n)),
    ensures
        reader::dictionary_at(
            s,
            p,
            with_records(bare_records(vars, vars.len() as int)),
        ) == reader::dictionary_at(
            s,
            p + writer::label_records_bytes(vars, n).len(),
            with_records(labelled_records(vars, n)),
        ),
    decreases n,
{
    if n > 0 {
        let total = vars.len() as int;
        let at = writer::record_count(vars, n - 1);
        lemma_counts_agree(vars, n - 1);
        let before = writer::label_records_bytes(vars, n - 1);
        let rec = writer::label_record_bytes(vars[n - 1], at);
        bytes::lemma_holds_split(s, p, before, rec);
        lemma_label_records_read(s, p, vars, n - 1);
        lemma_record_count(vars, n - 1, total);
        lemma_labelled_layout(vars, n - 1);
        let records = labelled_records(vars, n - 1);
        assert(records[writer::record_count(vars, n - 1)].value_labels == Seq::<
            (i64, Seq<char>),
        >::empty());
        assert(dictionary_law::storable_variable(vars[n - 1]));
        lemma_label_record_read(s, p + before.len(), vars[n - 1], at, records);
    }
}

/// An entry of the long names record is split where it was joined.
proof fn lemma_entry(name: Seq<char>, i: int)
    requires
        0 <= i < 99999,
        text_law::lacks(name, '='),
    ensures
        text::pieces(writer::generated_name(i) + "="@ + name, '=') == seq![
            writer::generated_name(i),
            name,
        ],
        text::uppercase(text::trimmed(writer::generated_name(i))) == writer::generated_name(i),
        text_law::lacks(writer::generated_name(i), '\t'),
{
    reveal_strlit("=");
    let g = writer::generated_name(i);
    dictionary_law::lemma_generated_name(i);
    assert forall|k: int| 0 <= k < g.len() implies #[trigger] g[k] != '=' && g[k] != '\t' by {
        assert(text::ascii_alphanumeric(g[k]));
    }
    assert("="@ =~= seq!['=']);
    text_law::lemma_pieces_single(g, '=');
    text_law::lemma_pieces_join(g, name, '=');
    assert(seq![g].push(name) =~= seq![g, name]);
    assert(text::ascii_alphanumeric(g[0]));
    assert(text::ascii_alphanumeric(g[7]));
    text_law::lemma_trim_start_nothing(g);
    text_law::lemma_trim_end_nothing(g);
}

proof fn lemma_entries(vars: Seq<VariableView>, n: int)
    requires
        0 <= n <= vars.len(),
        forall|i: int|
            0 <= i < vars.len() ==> dictionary_law::storable_name(
                (#[trigger] vars[i]).name,
                i,
            ),
    ensures
        reader::names_and(Map::empty(), writer::long_entries(vars, n)) == long_names(vars, n),
        forall|k: int|
            0 <= k < writer::long_entries(vars, n).len() ==> text_law::lacks(
                #[trigger] writer::long_entries(vars, n)[k],
                '\t',
            ),
        writer::long_entries(vars, n).len() > 0 ==> exists|i: int|
            0 <= i < n && !writer::plain_name((#[trigger] vars[i]).name) && writer::long_entries(
                vars,
                n,
            ).last() == writer::generated_name(i) + "="@ + vars[i].name,
    decreases n,
{
    if n > 0 {
        lemma_entries(vars, n - 1);
        let v = vars[n - 1];
        let before = writer::long_entries(vars, n - 1);
        let now = writer::long_entries(vars, n);
        assert(dictionary_law::storable_name(v.name, n - 1));
        if !writer::plain_name(v.name) {
            lemma_entry(v.name, n - 1);
            let entry = writer::generated_name(n - 1) + "="@ + v.name;
            assert(now.drop_last() =~= before);
            reveal_strlit("=");
            assert forall|k: int| 0 <= k < now.len() implies text_law::lacks(
                #[trigger] now[k],
                '\t',
            ) by {
                if k < before.len() {
                    assert(now[k] == before[k]);
                } else {
                    let g = writer::generated_name(n - 1);
                    assert forall|j: int| 0 <= j < entry.len() implies #[trigger] entry[j]
                        != '\t' by {
                        if j < g.len() {
                            assert(entry[j] == g[j]);
                        } else if j > g.len() {
                            assert(entry[j] == v.name[j - g.len() - 1]);
                        }
                    }
                }
            }
        }
    }
}

/// The list of long names is read back, though white space at its end is lost.
proof fn lemma_names_list(vars: Seq<VariableView>)
    requires
        forall|i: int|
            0 <= i < vars.len() ==> dictionary_law::storable_name(
                (#[trigger] vars[i]).name,
                i,
            ),
        writer::long_entries(vars, vars.len() as int).len() > 0,
    ensures
        ({
            let entries = writer::long_entries(vars, vars.len() as int);
            reader::names_and(
                Map::empty(),
                text::pieces(
                    text::trimmed_end(text::joined(entries, "\t"@) + "\t"@),
                    '\t',
                ),
            ) == long_names(vars, vars.len() as int)
        }),
{
    let n = vars.len() as int;
    let entries = writer::long_entries(vars, n);
    lemma_entries(vars, n);
    let i = choose|i: int|
        0 <= i < n && !writer::plain_name((#[trigger] vars[i]).name) && entries.last()
            == writer::generated_name(i) + "="@ + vars[i].name;
    let v = vars[i];
    assert(dictionary_law::storable_name(v.name, i));
    reveal_strlit("\t");
    reveal_strlit("=");
    assert("\t"@ =~= seq!['\t']);
    let list = text::joined(entries, "\t"@);
    let head = entries.drop_last();
    // White space at the end of the list is the tab and what ends the last name.
    assert(text_law::all_white("\t"@));
    text_law::law_trim_end_ignores_padding(list, "\t"@);
    let g = writer::generated_name(i);
    let last = entries.last();
    let short = text::trimmed_end(v.name);
    let cut = g + "="@ + short;
    text_law::law_trim_end_splits(v.name);
    let gap = v.name.skip(short.len() as int);
    assert(short + gap =~= v.name);
    assert(last =~= cut + gap);
    assert(cut.len() > 0 && !text::white(cut.last())) by {
        if short.len() == 0 {
            assert(cut.last() == '=');
        } else {
            assert(cut.last() == short.last());
        }
    }
    // The list with its last entry cut is a list of entries too.
    let entries2 = head.push(cut);
    let list2 = text::joined(entries2, "\t"@);
    assert(entries2.drop_last() =~= head);
    assert(list =~= list2 + gap) by {
        if entries.len() == 1 {
            assert(list == last);
            assert(list2 == cut);
        } else {
            assert(list == text::joined(head, "\t"@) + "\t"@ + last);
            assert(list2 == text::joined(head, "\t"@) + "\t"@ + cut);
        }
    }
    text_law::law_trim_end_ignores_padding(list2, gap);
    assert(list2.len() > 0 && list2.last() == cut.last()) by {
        if entries.len() == 1 {
            assert(list2 == cut);
        }
    }
    text_law::lemma_trim_end_nothing(list2);
    assert forall|k: int| 0 <= k < entries2.len() implies text_law::lacks(
        #[trigger] entries2[k],
        '\t',
    ) by {
        assert(text_law::lacks(entries[k], '\t'));
        if k == entries.len() - 1 {
            assert forall|j: int| 0 <= j < cut.len() implies #[trigger] cut[j] != '\t' by {
                assert(cut[j] == last[j]);
            }
        }
    }
    text_law::law_split_undoes_join(entries2, '\t');
    // Cutting the last entry changes nothing that is put in.
    lemma_entry(v.name, i);
    assert forall|j: int| 0 <= j < short.len() implies #[trigger] short[j] != '=' by {
        assert(short[j] == v.name[j]);
    }
    lemma_entry(short, i);
    text_law::law_trim_after_trim_end(v.name);
    assert(reader::names_and(Map::empty(), entries2) == reader::names_and(Map::empty(), entries));
}

/// Where the parts of the long names record stand.
proof fn lemma_names_parts(s: Seq<u8>, p: int, entries: Seq<Seq<char>>)
    requires
        entries.len() > 0,
        writer::names_bytes(entries).len() <= i32::MAX,
        bytes::holds_at(s, p, writer::names_bytes(entries)),
    ensures
        ({
            let list = text::joined(entries, "\t"@) + "\t"@;
            let n = encode_utf8(list).len() as int;
            &&& 0 <= p
            &&& bytes::i32_at(s, p) == 7
            &&& bytes::i32_at(s, p + 4) == 11
            &&& bytes::i32_at(s, p + 8) == 1
            &&& bytes::i32_at(s, p + 12) == n
            &&& p + 16 + n == p + writer::names_bytes(entries).len()
            &&& p + 16 + n <= s.len()
            &&& bytes::text_at(s, p + 16, n) == text::trimmed_end(list)
        }),
{
    let list = text::joined(entries, "\t"@) + "\t"@;
    let b = encode_utf8(list);
    let n = b.len() as int;
    let a7 = bytes::le4(7);
    let a11 = a7 + bytes::le4(11);
    let a1 = a11 + bytes::le4(1);
    let an = a1 + bytes::le4(n);
    bytes::lemma_holds_split(s, p, an, b);
    bytes::lemma_holds_split(s, p, a1, bytes::le4(n));
    bytes::lemma_holds_split(s, p, a11, bytes::le4(1));
    bytes::lemma_holds_split(s, p, a7, bytes::le4(11));
    bytes::law_integer_read_back(s, p, 7);
    bytes::law_integer_read_back(s, p + 4, 11);
    bytes::law_integer_read_back(s, p + 8, 1);
    bytes::law_integer_read_back(s, p + 12, n);
    text_law::lemma_lossy_of_encoded(list);
    assert(s.subrange(p + 16, p + 16 + n) == b);
}

/// The long names record is read.
proof fn lemma_names_read(
    s: Seq<u8>,
    p: int,
    vars: Seq<VariableView>,
    records: Seq<RecordView>,
)
    requires
        writer::names_bytes(writer::long_entries(vars, vars.len() as int)).len() <= i32::MAX,
        bytes::holds_at(
            s,
            p,
            writer::names_bytes(writer::long_entries(vars, vars.len() as int)),
        ),
    ensures
        reader::dictionary_at(s, p, with_records(records)) == reader::dictionary_at(
            s,
            p + writer::names_bytes(writer::long_entries(vars, vars.len() as int)).len(),
            (DictionaryView { long_names: found_names(vars), ..with_records(records) }),
        ),
{
    let entries = writer::long_entries(vars, vars.len() as int);
    let d = with_records(records);
    if entries.len() == 0 {
        assert(d == (DictionaryView { long_names: found_names(vars), ..d }));
    } else {
        lemma_names_parts(s, p, entries);
        let n = encode_utf8(text::joined(entries, "\t"@) + "\t"@).len() as int;
        assert(1 * n == n);
        assert(reader::dictionary_step(s, p, d) == Ok::<_, SavError>(
            (DictionaryView { long_names: found_names(vars), ..d }, p + 16 + n),
        ));
    }
}

/// Names that a file can hold are found as the long names.
proof fn lemma_found_names(vars: Seq<VariableView>)
    requires
        names_kept(vars),
    ensures
        found_names(vars) == long_names(vars, vars.len() as int),
{
    let entries = writer::long_entries(vars, vars.len() as int);
    if entries.len() == 0 {
        lemma_entries(vars, vars.len() as int);
        assert(reader::names_and(Map::empty(), entries) =~= Map::empty());
    } else {
        lemma_names_list(vars);
    }
}

/// The record of the measurement levels is read back.
proof fn lemma_levels_read(s: Seq<u8>, p: int, vars: Seq<VariableView>, d: DictionaryView)
    requires
        vars.len() <= i32::MAX,
        bytes::holds_at(s, p, writer::levels_bytes(vars)),
    ensures
        reader::dictionary_at(s, p, d) == reader::dictionary_at(
            s,
            p + writer::levels_bytes(vars).len(),
            (DictionaryView { levels: writer::level_codes(vars), ..d }),
        ),
{
    let n = vars.len() as int;
    let codes = writer::level_codes(vars);
    let a7 = bytes::le4(7);
    let at = a7 + bytes::le4(reader::LEVELS_SUBTYPE as int);
    let a1 = at + bytes::le4(1);
    let an = a1 + bytes::le4(n);
    bytes::lemma_holds_split(s, p, an, codes);
    bytes::lemma_holds_split(s, p, a1, bytes::le4(n));
    bytes::lemma_holds_split(s, p, at, bytes::le4(1));
    bytes::lemma_holds_split(s, p, a7, bytes::le4(reader::LEVELS_SUBTYPE as int));
    bytes::law_integer_read_back(s, p, 7);
    bytes::law_integer_read_back(s, p + 4, reader::LEVELS_SUBTYPE as int);
    bytes::law_integer_read_back(s, p + 8, 1);
    bytes::law_integer_read_back(s, p + 12, n);
    assert(1 * n == n);
    assert(s.subrange(p + 16, p + 16 + n) == codes);
    assert(reader::dictionary_step(s, p, d) == Ok::<_, SavError>(
        (DictionaryView { levels: codes, ..d }, p + 16 + n),
    ));
}

/// Which names lead to a long name.
proof fn lemma_long_names(vars: Seq<VariableView>, n: int, key: Seq<char>)
    requires
        0 <= n <= vars.len(),
        forall|i: int|
            0 <= i < vars.len() ==> dictionary_law::storable_name(
                (#[trigger] vars[i]).name,
                i,
            ),
    ensures
        long_names(vars, n).contains_key(key) ==> exists|i: int|
            0 <= i < n && !writer::plain_name((#[trigger] vars[i]).name) && key
                == writer::generated_name(i),
        forall|i: int|
            0 <= i < n && !writer::plain_name((#[trigger] vars[i]).name)
                ==> long_names(vars, n).contains_key(writer::generated_name(i)) && long_names(
                vars,
                n,
            )[writer::generated_name(i)] == text::trimmed(vars[i].name),
    decreases n,
{
    if n > 0 {
        lemma_long_names(vars, n - 1, key);
        assert forall|i: int|
            0 <= i < n && !writer::plain_name((#[trigger] vars[i]).name) implies long_names(
            vars,
            n,
        ).contains_key(writer::generated_name(i)) && long_names(vars, n)[writer::generated_name(i)]
            == text::trimmed(vars[i].name) by {
            assert(dictionary_law::storable_name(vars[i].name, i));
            if !writer::plain_name(vars[n - 1].name) && i < n - 1 {
                assert(dictionary_law::storable_name(vars[n - 1].name, n - 1));
                if writer::generated_name(i) == writer::generated_name(n - 1) {
                    dictionary_law::lemma_generated_distinct(i, n - 1);
                }
            }
        }
    }
}

/// A record of the dictionary is the variable as it is found.
proof fn lemma_variable_restored(vars: Seq<VariableView>, i: int)
    requires
        0 <= i < vars.len(),
    ensures
        ({
            let records = labelled_records(vars, vars.len() as int);
            reader::variable_of_record(
                reader::renamed(records[writer::record_count(vars, i)], found_names(vars)),
                reader::level_of(writer::level_codes(vars), i),
            ) == found_variables(vars)[i]
        }),
{
    let n = vars.len() as int;
    lemma_labelled_layout(vars, n);
    let records = labelled_records(vars, n);
    assert(variable_at(records, vars, i));
    assert(records[writer::record_count(vars, i)].value_labels == dictionary_law::stored_labels(
        vars[i].value_labels,
    ));
}

/// Names that a file can hold come back.
proof fn lemma_names_restored(vars: Seq<VariableView>)
    requires
        names_kept(vars),
    ensures
        found_variables(vars) == stored_variables(vars),
{
    let n = vars.len() as int;
    lemma_found_names(vars);
    assert forall|i: int| 0 <= i < n implies found_name(vars, i) == stored_variable(
        #[trigger] vars[i],
    ).name by {
        let v = vars[i];
        assert(dictionary_law::storable_name(v.name, i));
        dictionary_law::lemma_short_name_read_back(v.name, i);
        let key = text::uppercase(writer::short_name(v.name, i));
        if writer::plain_name(v.name) {
            dictionary_law::lemma_plain_name(v.name);
        } else {
            dictionary_law::lemma_generated_name(i);
        }
        lemma_long_names(vars, n, key);
    }
    assert(found_variables(vars) =~= stored_variables(vars)) by {
        assert forall|i: int| 0 <= i < n implies found_variables(vars)[i] == stored_variables(
            vars,
        )[i] by {
            assert(found_name(vars, i) == stored_variable(vars[i]).name);
        }
    }
}

proof fn lemma_continuations_define_nothing(
    records: Seq<RecordView>,
    names: Map<Seq<char>, Seq<char>>,
    levels: Seq<u8>,
    from: int,
    to: int,
)
    requires
        0 <= from <= to <= records.len(),
        forall|j: int| from <= j < to ==> (#[trigger] records[j]).is_continuation,
    ensures
        reader::variables_of(records, names, levels, to) == reader::variables_of(
            records,
            names,
            levels,
            from,
        ),
    decreases to - from,
{
    if from < to {
        assert(records[to - 1].is_continuation);
        lemma_continuations_define_nothing(records, names, levels, from, to - 1);
    }
}

/// The records are the variables as they are found.
proof fn lemma_variables_restored(vars: Seq<VariableView>, n: int)
    requires
        0 <= n <= vars.len(),
    ensures
        reader::variables_of(
            labelled_records(vars, vars.len() as int),
            found_names(vars),
            writer::level_codes(vars),
            writer::record_count(vars, n),
        ) == found_variables(vars).take(n),
    decreases n,
{
    let total = vars.len() as int;
    let records = labelled_records(vars, total);
    let names = found_names(vars);
    let levels = writer::level_codes(vars);
    if n == 0 {
        assert(found_variables(vars).take(0) =~= Seq::empty());
    } else {
        lemma_variables_restored(vars, n - 1);
        lemma_labelled_layout(vars, total);
        lemma_variable_restored(vars, n - 1);
        lemma_record_count(vars, n - 1, total);
        let k = writer::record_count(vars, n - 1);
        assert(variable_at(records, vars, n - 1));
        assert(reader::variables_of(records, names, levels, k + 1) == reader::variables_of(
            records,
            names,
            levels,
            k,
        ).push(found_variables(vars)[n - 1]));
        lemma_continuations_define_nothing(
            records,
            names,
            levels,
            k + 1,
            writer::record_count(vars, n),
        );
        assert(found_variables(vars).take(n) =~= found_variables(vars).take(n - 1).push(
            found_variables(vars)[n - 1],
        ));
    }
}

/// The header is read back.
proof fn lemma_header_read(s: Seq<u8>, records: int, cases: int)
    requires
        0 <= cases <= i32::MAX,
        bytes::holds_at(s, 0, writer::header_bytes(records, cases)),
    ensures
        writer::header_bytes(records, cases).len() == 176,
        reader::header_at(s) == Ok::<_, SavError>(
            SavHeader { compression: 1, ncases: cases as i32, bias: number::nearest(100) },
        ),
{
    reveal_strlit("$FL2");
    reveal_strlit("OxStat");
    reveal_strlit("04 Jul 26");
    reveal_strlit("12:00:00");
    let magic = encode_utf8("$FL2"@);
    vstd::utf8::is_ascii_chars_encode_utf8("$FL2"@);
    vstd::utf8::is_ascii_chars_encode_utf8("OxStat"@);
    vstd::utf8::is_ascii_chars_encode_utf8("04 Jul 26"@);
    vstd::utf8::is_ascii_chars_encode_utf8("12:00:00"@);
    let bias = number::nearest(100);
    let a0 = magic + encode_utf8("OxStat"@);
    let a1 = a0 + bytes::run_of(32, 54);
    let a2 = a1 + bytes::le4(2);
    let a3 = a2 + bytes::le4(records);
    let a4 = a3 + bytes::le4(1);
    let a5 = a4 + bytes::le4(0);
    let a6 = a5 + bytes::le4(cases);
    let a7 = a6 + bytes::le8(bias);
    let a8 = a7 + encode_utf8("04 Jul 26"@);
    let a9 = a8 + encode_utf8("12:00:00"@);
    let a10 = a9 + bytes::run_of(32, 64);
    bytes::lemma_holds_split(s, 0, a10, bytes::run_of(0, 3));
    bytes::lemma_holds_split(s, 0, a9, bytes::run_of(32, 64));
    bytes::lemma_holds_split(s, 0, a8, encode_utf8("12:00:00"@));
    bytes::lemma_holds_split(s, 0, a7, encode_utf8("04 Jul 26"@));
    bytes::lemma_holds_split(s, 0, a6, bytes::le8(bias));
    bytes::lemma_holds_split(s, 0, a5, bytes::le4(cases));
    bytes::lemma_holds_split(s, 0, a4, bytes::le4(0));
    bytes::lemma_holds_split(s, 0, a3, bytes::le4(1));
    bytes::lemma_holds_split(s, 0, a2, bytes::le4(records));
    bytes::lemma_holds_split(s, 0, a1, bytes::le4(2));
    bytes::lemma_holds_split(s, 0, a0, bytes::run_of(32, 54));
    bytes::lemma_holds_split(s, 0, magic, encode_utf8("OxStat"@));
    bytes::law_integer_read_back(s, 64, 2);
    bytes::law_integer_read_back(s, 72, 1);
    bytes::law_integer_read_back(s, 80, cases);
    bytes::law_double_read_back(s, 84, bias);
    text_law::lemma_lossy_of_encoded("$FL2"@);
    assert(s.subrange(0, 4) == magic);
    assert("$FL2"@.last() == '2');
    text_law::lemma_trim_end_nothing("$FL2"@);
}

/// The values of the first `n` variables in a row, as they come back.
spec fn stored_row<F: Fn(NumOp) -> Number>(
    ds: DatasetView,
    b: int,
    r: int,
    n: int,
    calc: F,
) -> Seq<ValueView> {
    Seq::new(
        n as nat,
        |i: int|
            row_law::stored_value(
                ds.variables[i].var_type,
                ds.batches[b].columns[i].cells[r],
                calc,
            ),
    )
}

proof fn lemma_row_read<F: Fn(NumOp) -> Number>(
    s: Seq<u8>,
    h: SavHeader,
    records: Seq<RecordView>,
    ds: DatasetView,
    b: int,
    r: int,
    n: int,
    start: StreamView,
    more: Seq<(u8, Seq<u8>)>,
    calc: F,
) -> (after: RowView)
    requires
        h.compression == 1,
        h.bias == number::nearest(100),
        holdable(ds),
        laid_out(records, ds.variables, ds.variables.len() as int),
        0 <= b < ds.batches.len(),
        0 <= r < ds.batches[b].num_rows,
        0 <= n <= ds.variables.len(),
        data_law::ready(s, start, writer::row_items(ds, b, r, n, calc) + more),
    ensures
        reader::row_at(s, h, records, 0, reader::row_from(start), calc) == reader::row_at(
            s,
            h,
            records,
            writer::record_count(ds.variables, n),
            after,
            calc,
        ),
        after.row == stored_row(ds, b, r, n, calc),
        after.open == 0,
        data_law::ready(s, after.stream, more),
    decreases n,
{
    if n == 0 {
        assert(writer::row_items(ds, b, r, 0, calc) + more =~= more);
        assert(stored_row(ds, b, r, 0, calc) =~= Seq::empty());
        reader::row_from(start)
    } else {
        let vars = ds.variables;
        let t = vars[n - 1].var_type;
        let cell = ds.batches[b].columns[n - 1].cells[r];
        let items = writer::cell_items(t, cell, calc);
        let before = writer::row_items(ds, b, r, n - 1, calc);
        assert(before + items + more =~= before + (items + more));
        let st = lemma_row_read(s, h, records, ds, b, r, n - 1, start, items + more, calc);
        let k = writer::record_count(vars, n - 1);
        lemma_record_count(vars, n - 1, vars.len() as int);
        lemma_record_count(vars, n - 1, n);
        assert(variable_at(records, vars, n - 1));
        assert(writer::writable(ds, b, r, n - 1));
        assert(dictionary_law::storable_variable(vars[n - 1]));
        let after = row_law::lemma_cell_read_back(s, h, records, k, st, t, cell, more, calc);
        assert(stored_row(ds, b, r, n, calc) =~= stored_row(ds, b, r, n - 1, calc).push(
            row_law::stored_value(t, cell, calc),
        ));
        after
    }
}

/// The columns after the first `b` batches and `r` rows of the next.
spec fn columns_upto<F: Fn(NumOp) -> Number>(
    ds: DatasetView,
    b: int,
    r: int,
    calc: F,
) -> Seq<Seq<CellView>> {
    Seq::new(
        ds.variables.len(),
        |i: int| stored_column(ds, i, b, calc) + stored_batch(ds, i, b, r, calc),
    )
}

/// The first record defines a variable.
pub proof fn lemma_first_is_primary(records: Seq<RecordView>, vars: Seq<VariableView>)
    requires
        vars.len() > 0,
        laid_out(records, vars, vars.len() as int),
    ensures
        reader::has_primary(records, 0),
{
    assert(variable_at(records, vars, 0));
    lemma_record_count(vars, 0, vars.len() as int);
    assert(!records[0].is_continuation);
}

/// A row as it comes back suits the variables, and adds an entry to each column.
proof fn lemma_row_added<F: Fn(NumOp) -> Number>(
    ds: DatasetView,
    b: int,
    r: int,
    row: Seq<ValueView>,
    calc: F,
)
    requires
        r > 0,
        row == stored_row(ds, b, r - 1, ds.variables.len() as int, calc),
    ensures
        reader::row_suits(found_variables(ds.variables), row),
        reader::with_row(columns_upto(ds, b, r - 1, calc), row) == columns_upto(ds, b, r, calc),
{
    let was = columns_upto(ds, b, r - 1, calc);
    let now = columns_upto(ds, b, r, calc);
    assert forall|i: int| 0 <= i < now.len() implies reader::with_row(was, row)[i] == now[i] by {
        assert(was[i].push(reader::cell_of(row[i])) =~= now[i]);
    }
    assert(reader::with_row(was, row) =~= now);
}

/// After the last row of a batch the next one starts.
proof fn lemma_batch_added<F: Fn(NumOp) -> Number>(ds: DatasetView, b: int, calc: F)
    requires
        0 < b <= ds.batches.len(),
    ensures
        columns_upto(ds, b - 1, ds.batches[b - 1].num_rows as int, calc) == columns_upto(
            ds,
            b,
            0,
            calc,
        ),
{
    let was = columns_upto(ds, b - 1, ds.batches[b - 1].num_rows as int, calc);
    let now = columns_upto(ds, b, 0, calc);
    assert forall|i: int| 0 <= i < now.len() implies was[i] == now[i] by {
        assert(stored_column(ds, i, b, calc) + stored_batch(ds, i, b, 0, calc) =~= stored_column(
            ds,
            i,
            b,
            calc,
        ));
    }
    assert(was =~= now);
}

#[verifier::rlimit(30)]
proof fn lemma_cases_read<F: Fn(NumOp) -> Number>(
    s: Seq<u8>,
    h: SavHeader,
    records: Seq<RecordView>,
    ds: DatasetView,
    b: int,
    r: int,
    start: StreamView,
    more: Seq<(u8, Seq<u8>)>,
    calc: F,
) -> (after: StreamView)
    requires
        h.compression == 1,
        h.bias == number::nearest(100),
        holdable(ds),
        laid_out(records, ds.variables, ds.variables.len() as int),
        0 <= b <= ds.batches.len(),
        0 <= r,
        r > 0 ==> b < ds.batches.len() && r <= ds.batches[b].num_rows,
        data_law::ready(
            s,
            start,
            writer::case_items(ds, b, calc) + writer::batch_items(ds, b, r, calc) + more,
        ),
    ensures
        reader::cases_at(
            s,
            h,
            records,
            found_variables(ds.variables),
            start,
            reader::no_cells(ds.variables.len()),
            ds.n_cases() as int,
            calc,
        ) == reader::cases_at(
            s,
            h,
            records,
            found_variables(ds.variables),
            after,
            columns_upto(ds, b, r, calc),
            ds.n_cases() - (dataset::rows_in(ds.batches.take(b)) + r),
            calc,
        ),
        data_law::ready(s, after, more),
    decreases b, r,
{
    let n = ds.variables.len() as int;
    if r > 0 {
        let row = writer::row_items(ds, b, r - 1, n, calc);
        let head = writer::case_items(ds, b, calc);
        let before = writer::batch_items(ds, b, r - 1, calc);
        assert(head + (before + row) + more =~= head + before + (row + more));
        let st = lemma_cases_read(s, h, records, ds, b, r - 1, start, row + more, calc);
        let left = ds.n_cases() - (dataset::rows_in(ds.batches.take(b)) + (r - 1));
        assert(left > 0) by {
            dataset::lemma_rows_split(ds.batches, b);
            dataset::lemma_rows_split(ds.batches, b + 1);
        }
        let done = lemma_row_read(s, h, records, ds, b, r - 1, n, st, more, calc);
        assert(reader::row_at(s, h, records, 0, reader::row_from(st), calc) == Some(done));
        lemma_first_is_primary(records, ds.variables);
        lemma_row_added(ds, b, r, done.row, calc);
        done.stream
    } else if b > 0 {
        let rows = ds.batches[b - 1].num_rows as int;
        let head = writer::case_items(ds, b - 1, calc);
        let last = writer::batch_items(ds, b - 1, rows, calc);
        assert(head + last + writer::batch_items(ds, b, 0, calc) + more =~= head + last + more);
        let st = lemma_cases_read(s, h, records, ds, b - 1, rows, start, more, calc);
        dataset::lemma_rows_split(ds.batches, b - 1);
        lemma_batch_added(ds, b, calc);
        st
    } else {
        assert(writer::case_items(ds, 0, calc) + writer::batch_items(ds, 0, 0, calc) + more
            =~= more);
        let now = columns_upto(ds, 0, 0, calc);
        assert(now =~= reader::no_cells(ds.variables.len())) by {
            assert forall|i: int| 0 <= i < n implies now[i] == Seq::<CellView>::empty() by {
                assert(now[i] =~= Seq::<CellView>::empty());
            }
        }
        assert(ds.batches.take(0) =~= Seq::empty());
        start
    }
}

pub proof fn lemma_column_length<F: Fn(NumOp) -> Number>(ds: DatasetView, i: int, n: int, calc: F)
    requires
        0 <= n <= ds.batches.len(),
    ensures
        stored_column(ds, i, n, calc).len() == dataset::rows_in(ds.batches.take(n)),
    decreases n,
{
    if n > 0 {
        lemma_column_length(ds, i, n - 1, calc);
        dataset::lemma_rows_split(ds.batches, n - 1);
    } else {
        assert(ds.batches.take(0) =~= Seq::empty());
    }
}

/// The dictionary as it comes back.
pub open spec fn stored_dictionary(vars: Seq<VariableView>) -> DictionaryView {
    let n = vars.len() as int;
    DictionaryView {
        records: labelled_records(vars, n),
        long_names: found_names(vars),
        levels: writer::level_codes(vars),
    }
}

/// Where eight parts stand.
proof fn lemma_eight_parts(
    s: Seq<u8>,
    a: Seq<u8>,
    b: Seq<u8>,
    c: Seq<u8>,
    d: Seq<u8>,
    e: Seq<u8>,
    f: Seq<u8>,
    g: Seq<u8>,
    h: Seq<u8>,
)
    requires
        s == a + b + c + d + e + f + g + h,
    ensures
        bytes::holds_at(s, 0, a),
        bytes::holds_at(s, a.len() as int, b),
        bytes::holds_at(s, (a.len() + b.len()) as int, c),
        bytes::holds_at(s, (a.len() + b.len() + c.len()) as int, d),
        bytes::holds_at(s, (a.len() + b.len() + c.len() + d.len()) as int, e),
        bytes::holds_at(s, (a.len() + b.len() + c.len() + d.len() + e.len()) as int, f),
        bytes::holds_at(
            s,
            (a.len() + b.len() + c.len() + d.len() + e.len() + f.len() + g.len()) as int,
            h,
        ),
{
    let ab = a + b;
    let abc = ab + c;
    let abcd = abc + d;
    let abcde = abcd + e;
    let abcdef = abcde + f;
    let abcdefg = abcdef + g;
    assert(s.subrange(0, s.len() as int) =~= s);
    bytes::lemma_holds_split(s, 0, abcdefg, h);
    bytes::lemma_holds_split(s, 0, abcdef, g);
    bytes::lemma_holds_split(s, 0, abcde, f);
    bytes::lemma_holds_split(s, 0, abcd, e);
    bytes::lemma_holds_split(s, 0, abc, d);
    bytes::lemma_holds_split(s, 0, ab, c);
    bytes::lemma_holds_split(s, 0, a, b);
}

/// Where the parts before the case data stand.
proof fn lemma_prologue_parts(s: Seq<u8>, vars: Seq<VariableView>, cases: int, data: Seq<u8>)
    requires
        s == writer::prologue_bytes(vars, cases) + data,
    ensures
        ({
            let n = vars.len() as int;
            let head = writer::header_bytes(writer::record_count(vars, n), cases);
            let recs = writer::variable_bytes(vars, n);
            let labels = writer::label_records_bytes(vars, n);
            let names = writer::names_bytes(writer::long_entries(vars, n));
            let q1 = head.len() as int;
            let q2 = q1 + recs.len();
            let q3 = q2 + labels.len();
            let levels = writer::levels_bytes(vars);
            let q4 = q3 + names.len();
            let q5 = q4 + levels.len();
            &&& bytes::holds_at(s, 0, head)
            &&& bytes::holds_at(s, q1, recs)
            &&& bytes::holds_at(s, q2, labels)
            &&& bytes::holds_at(s, q3, names)
            &&& bytes::holds_at(s, q4, levels)
            &&& bytes::i32_at(s, q5) == 999
            &&& q5 + 8 == writer::prologue_bytes(vars, cases).len()
            &&& bytes::holds_at(s, q5 + 8, data)
        }),
{
    let n = vars.len() as int;
    let head = writer::header_bytes(writer::record_count(vars, n), cases);
    let recs = writer::variable_bytes(vars, n);
    let labels = writer::label_records_bytes(vars, n);
    let names = writer::names_bytes(writer::long_entries(vars, n));
    let levels = writer::levels_bytes(vars);
    lemma_eight_parts(
        s,
        head,
        recs,
        labels,
        names,
        levels,
        bytes::le4(999),
        bytes::le4(0),
        data,
    );
    bytes::law_integer_read_back(
        s,
        (head.len() + recs.len() + labels.len() + names.len() + levels.len()) as int,
        999,
    );
}

/// The header and the dictionary are read back.
pub proof fn lemma_prologue_read(s: Seq<u8>, ds: DatasetView, data: Seq<u8>)
    requires
        holdable(ds),
        s == writer::prologue_bytes(ds.variables, ds.n_cases() as int) + data,
    ensures
        reader::header_at(s) == Ok::<_, SavError>(
            SavHeader {
                compression: 1,
                ncases: ds.n_cases() as i32,
                bias: number::nearest(100),
            },
        ),
        reader::dictionary_at(s, 176, reader::empty_dictionary()) == Ok::<_, SavError>(
            (
                stored_dictionary(ds.variables),
                writer::prologue_bytes(ds.variables, ds.n_cases() as int).len() as int,
            ),
        ),
        bytes::holds_at(
            s,
            writer::prologue_bytes(ds.variables, ds.n_cases() as int).len() as int,
            data,
        ),
{
    let vars = ds.variables;
    let n = vars.len() as int;
    let cases = ds.n_cases() as int;
    let count = writer::record_count(vars, n);
    lemma_prologue_parts(s, vars, cases, data);
    lemma_header_read(s, count, cases);
    let recs = writer::variable_bytes(vars, n);
    let labels = writer::label_records_bytes(vars, n);
    let names = writer::names_bytes(writer::long_entries(vars, n));
    lemma_variables_read(s, 176, vars, n);
    let q2: int = 176 + recs.len() as int;
    lemma_label_records_read(s, q2, vars, n);
    let q3: int = q2 + labels.len();
    lemma_names_read(s, q3, vars, labelled_records(vars, n));
    let q4: int = q3 + names.len();
    lemma_record_count_covers(vars, n);
    lemma_levels_read(
        s,
        q4,
        vars,
        DictionaryView {
            long_names: found_names(vars),
            ..with_records(labelled_records(vars, n))
        },
    );
    let q5: int = q4 + writer::levels_bytes(vars).len();
    assert(reader::dictionary_at(s, q5, stored_dictionary(vars)) == Ok::<_, SavError>(
        (stored_dictionary(vars), q5 + 8),
    ));
    assert(with_records(Seq::empty()) == reader::empty_dictionary());
}

/// Everything between the header and the case data.
#[verifier::opaque]
pub open spec fn dictionary_bytes(vars: Seq<VariableView>) -> Seq<u8> {
    let n = vars.len() as int;
    writer::variable_bytes(vars, n) + writer::label_records_bytes(vars, n) + writer::names_bytes(
        writer::long_entries(vars, n),
    ) + writer::levels_bytes(vars) + bytes::le4(999) + bytes::le4(0)
}

/// Where six parts stand.
proof fn lemma_six_parts(
    s: Seq<u8>,
    p: int,
    a: Seq<u8>,
    b: Seq<u8>,
    c: Seq<u8>,
    d: Seq<u8>,
    e: Seq<u8>,
    f: Seq<u8>,
)
    requires
        bytes::holds_at(s, p, a + b + c + d + e + f),
    ensures
        bytes::holds_at(s, p, a),
        bytes::holds_at(s, p + a.len(), b),
        bytes::holds_at(s, p + a.len() + b.len(), c),
        bytes::holds_at(s, p + a.len() + b.len() + c.len(), d),
        bytes::holds_at(s, p + a.len() + b.len() + c.len() + d.len(), e),
        p + a.len() + b.len() + c.len() + d.len() + e.len() + f.len() <= s.len(),
{
    let ab = a + b;
    let abc = ab + c;
    let abcd = abc + d;
    let abcde = abcd + e;
    bytes::lemma_holds_split(s, p, abcde, f);
    bytes::lemma_holds_split(s, p, abcd, e);
    bytes::lemma_holds_split(s, p, abc, d);
    bytes::lemma_holds_split(s, p, ab, c);
    bytes::lemma_holds_split(s, p, a, b);
}

/// Where the parts of the dictionary stand.
proof fn lemma_dictionary_parts(s: Seq<u8>, vars: Seq<VariableView>)
    requires
        bytes::holds_at(s, 176, dictionary_bytes(vars)),
    ensures
        ({
            let n = vars.len() as int;
            let recs = writer::variable_bytes(vars, n);
            let labels = writer::label_records_bytes(vars, n);
            let names = writer::names_bytes(writer::long_entries(vars, n));
            let q2 = 176 + recs.len();
            let q3 = q2 + labels.len();
            let q4 = q3 + names.len();
            let q5 = q4 + writer::levels_bytes(vars).len();
            &&& bytes::holds_at(s, 176, recs)
            &&& bytes::holds_at(s, q2 as int, labels)
            &&& bytes::holds_at(s, q3 as int, names)
            &&& bytes::holds_at(s, q4 as int, writer::levels_bytes(vars))
            &&& bytes::i32_at(s, q5 as int) == 999
            &&& q5 + 8 == 176 + dictionary_bytes(vars).len()
            &&& q5 + 8 <= s.len()
        }),
{
    reveal(dictionary_bytes);
    let n = vars.len() as int;
    let recs = writer::variable_bytes(vars, n);
    let labels = writer::label_records_bytes(vars, n);
    let names = writer::names_bytes(writer::long_entries(vars, n));
    let levels = writer::levels_bytes(vars);
    lemma_six_parts(s, 176, recs, labels, names, levels, bytes::le4(999), bytes::le4(0));
    bytes::law_integer_read_back(
        s,
        (176 + recs.len() + labels.len() + names.len() + levels.len()) as int,
        999,
    );
}

/// The dictionary is read back, whatever the header and the data are.
pub proof fn lemma_dictionary_read(s: Seq<u8>, ds: DatasetView)
    requires
        holdable(ds),
        bytes::holds_at(s, 176, dictionary_bytes(ds.variables)),
    ensures
        reader::dictionary_at(s, 176, reader::empty_dictionary()) == Ok::<_, SavError>(
            (
                stored_dictionary(ds.variables),
                176 + dictionary_bytes(ds.variables).len() as int,
            ),
        ),
{
    let vars = ds.variables;
    let n = vars.len() as int;
    lemma_dictionary_parts(s, vars);
    lemma_variables_read(s, 176, vars, n);
    let q2: int = 176 + writer::variable_bytes(vars, n).len() as int;
    lemma_label_records_read(s, q2, vars, n);
    let q3: int = q2 + writer::label_records_bytes(vars, n).len();
    lemma_names_read(s, q3, vars, labelled_records(vars, n));
    let q4: int = q3 + writer::names_bytes(writer::long_entries(vars, n)).len();
    lemma_record_count_covers(vars, n);
    lemma_levels_read(
        s,
        q4,
        vars,
        DictionaryView {
            long_names: found_names(vars),
            ..with_records(labelled_records(vars, n))
        },
    );
    let q5: int = q4 + writer::levels_bytes(vars).len();
    assert(reader::dictionary_at(s, q5, stored_dictionary(vars)) == Ok::<_, SavError>(
        (stored_dictionary(vars), q5 + 8),
    ));
    assert(with_records(Seq::empty()) == reader::empty_dictionary());
}

/// The cases as they come back fill the columns evenly.
proof fn lemma_stored_lengths<F: Fn(NumOp) -> Number>(ds: DatasetView, calc: F)
    requires
        ds.variables.len() > 0,
    ensures
        stored_columns(ds, calc)[0].len() == ds.n_cases(),
        batch::same_lengths(
            reader::columns_for(found_variables(ds.variables), stored_columns(ds, calc)),
            stored_columns(ds, calc)[0].len(),
        ),
{
    let nb = ds.batches.len() as int;
    assert(ds.batches.take(nb) =~= ds.batches);
    let cells = stored_columns(ds, calc);
    lemma_column_length(ds, 0, nb, calc);
    let columns = reader::columns_for(found_variables(ds.variables), cells);
    assert forall|i: int| 0 <= i < columns.len() implies (#[trigger] columns[i]).cells.len()
        == cells[0].len() by {
        lemma_column_length(ds, i, nb, calc);
    }
}

/// The cases are read back.
pub proof fn lemma_all_cases_read<F: Fn(NumOp) -> Number>(
    s: Seq<u8>,
    ds: DatasetView,
    at: int,
    calc: F,
)
    requires
        holdable(ds),
        bytes::holds_at(
            s,
            at,
            writer::data_bytes(writer::case_items(ds, ds.batches.len() as int, calc)),
        ),
    ensures
        reader::cases_at(
            s,
            (SavHeader {
                compression: 1,
                ncases: ds.n_cases() as i32,
                bias: number::nearest(100),
            }),
            labelled_records(ds.variables, ds.variables.len() as int),
            found_variables(ds.variables),
            reader::stream_from(at),
            reader::no_cells(ds.variables.len()),
            ds.n_cases() as int,
            calc,
        ) == Ok::<_, SavError>(stored_columns(ds, calc)),
{
    let vars = ds.variables;
    let n = vars.len() as int;
    let nb = ds.batches.len() as int;
    let items = writer::case_items(ds, nb, calc);
    let records = labelled_records(vars, n);
    lemma_labelled_layout(vars, n);
    let start = reader::stream_from(at);
    let h = SavHeader {
        compression: 1,
        ncases: ds.n_cases() as i32,
        bias: number::nearest(100),
    };
    assert(items + writer::batch_items(ds, nb, 0, calc) + Seq::empty() =~= items);
    let end = lemma_cases_read(s, h, records, ds, nb, 0, start, Seq::empty(), calc);
    assert(ds.batches.take(nb) =~= ds.batches);
    let cells = stored_columns(ds, calc);
    assert(columns_upto(ds, nb, 0, calc) =~= cells) by {
        assert forall|i: int| 0 <= i < n implies columns_upto(ds, nb, 0, calc)[i] == cells[i] by {
            assert(stored_column(ds, i, nb, calc) + stored_batch(ds, i, nb, 0, calc)
                =~= stored_column(ds, i, nb, calc));
        }
    }
}

/// A file is read as its parts are.
pub proof fn lemma_read_by_parts<F: Fn(NumOp) -> Number>(
    s: Seq<u8>,
    h: SavHeader,
    d: DictionaryView,
    p: int,
    vars: Seq<VariableView>,
    cells: Seq<Seq<CellView>>,
    calc: F,
)
    requires
        reader::header_at(s) == Ok::<_, SavError>(h),
        h.ncases >= 0,
        reader::dictionary_at(s, 176, reader::empty_dictionary()) == Ok::<_, SavError>((d, p)),
        reader::variables_of(d.records, d.long_names, d.levels, d.records.len() as int) == vars,
        reader::cases_at(
            s,
            h,
            d.records,
            vars,
            reader::stream_from(p),
            reader::no_cells(vars.len()),
            h.ncases as int,
            calc,
        ) == Ok::<_, SavError>(cells),
    ensures
        reader::sav_dataset(s, calc) == reader::table_of(vars, cells),
{
}

/// The records of the dictionary are the variables as they come back.
pub proof fn lemma_dictionary_variables(ds: DatasetView)
    requires
        holdable(ds),
    ensures
        reader::variables_of(
            stored_dictionary(ds.variables).records,
            stored_dictionary(ds.variables).long_names,
            stored_dictionary(ds.variables).levels,
            stored_dictionary(ds.variables).records.len() as int,
        ) == found_variables(ds.variables),
{
    let vars = ds.variables;
    let n = vars.len() as int;
    lemma_variables_restored(vars, n);
    lemma_labelled_layout(vars, n);
    let stored = found_variables(vars);
    assert(stored.take(n) =~= stored);
}

/// The cells as they come back make the table.
proof fn lemma_stored_table<F: Fn(NumOp) -> Number>(ds: DatasetView, calc: F)
    requires
        holdable(ds),
    ensures
        reader::table_of(found_variables(ds.variables), stored_columns(ds, calc)) == Ok::<
            DatasetView,
            SavError,
        >(found_dataset(ds, calc)),
{
    lemma_stored_lengths(ds, calc);
}

/// A dataset that was written is read back, whatever the names of its variables:
/// the reader accepts what the writer gives, and the variables and cases are those
/// that were written, in the form that a file holds them.
pub proof fn law_found_back<F: Fn(NumOp) -> Number>(ds: DatasetView, calc: F)
    requires
        holdable(ds),
    ensures
        reader::sav_dataset(writer::sav_bytes(ds, calc), calc) == Ok::<DatasetView, SavError>(
            found_dataset(ds, calc),
        ),
{
    let s = writer::sav_bytes(ds, calc);
    let at = writer::prologue_bytes(ds.variables, ds.n_cases() as int).len() as int;
    let items = writer::case_items(ds, ds.batches.len() as int, calc);
    lemma_prologue_read(s, ds, writer::data_bytes(items));
    lemma_dictionary_variables(ds);
    lemma_all_cases_read(s, ds, at, calc);
    lemma_stored_table(ds, calc);
    lemma_read_by_parts(
        s,
        SavHeader {
            compression: 1,
            ncases: ds.n_cases() as i32,
            bias: number::nearest(100),
        },
        stored_dictionary(ds.variables),
        at,
        found_variables(ds.variables),
        stored_columns(ds, calc),
        calc,
    );
}

/// A dataset that was written is read back with its names, where a file can hold
/// them: the reader accepts what the writer gives, and the variables and cases are
/// those that were written, in the form that a file holds them.
pub proof fn law_read_back<F: Fn(NumOp) -> Number>(ds: DatasetView, calc: F)
    requires
        storable(ds),
    ensures
        reader::sav_dataset(writer::sav_bytes(ds, calc), calc) == Ok::<DatasetView, SavError>(
            stored_dataset(ds, calc),
        ),
{
    law_found_back(ds, calc);
    lemma_names_restored(ds.variables);
}

} // verus!
