//! What is read of files that other programs wrote.
use vstd::prelude::*;

use crate::number::Number;
use crate::sav::bytes;
use crate::sav::bytes::SavError;
use crate::sav::reader;
use crate::sav::reader::{DictionaryView, RecordView, SavHeader};
use crate::text;
use crate::variable;
use crate::variable::MeasureLevel;

verus! {

/// A position that a list of `count` positions from `p` on names.
pub open spec fn listed(s: Seq<u8>, p: int, count: int, i: int) -> bool {
    exists|k: int| 0 <= k < count && #[trigger] bytes::i32_at(s, p + 4 * k) == i + 1
}

/// Value labels go to each variable whose position is listed, counted from 1, and to no
/// other; nothing else of a variable changes.
pub proof fn law_label_targets(
    s: Seq<u8>,
    p: int,
    count: nat,
    records: Seq<RecordView>,
    new: Seq<(Number, Seq<char>)>,
    i: int,
)
    requires
        0 <= p,
        p + 4 * count <= s.len(),
        forall|k: int|
            0 <= k < count ==> #[trigger] bytes::i32_at(s, p + 4 * k) > i32::MIN,
        0 <= i < records.len(),
    ensures
        reader::targets_at(s, p, count as int, records, new) matches Ok((after, q)) && {
            &&& q == p + 4 * count
            &&& after.len() == records.len()
            &&& !listed(s, p, count as int, i) ==> after[i] == records[i]
            &&& (RecordView { value_labels: records[i].value_labels, ..after[i] }) == records[i]
            &&& listed(s, p, count as int, i) ==> label_keys(after[i].value_labels, new)
        },
    decreases count,
{
    if count > 0 {
        let target = bytes::i32_at(s, p + 4 * 0) - 1;
        let next = reader::labelled(records, target, new);
        assert forall|k: int| 0 <= k < count - 1 implies #[trigger] bytes::i32_at(
            s,
            p + 4 + 4 * k,
        ) > i32::MIN by {
            assert(p + 4 * (k + 1) == p + 4 + 4 * k);
            assert(bytes::i32_at(s, p + 4 * (k + 1)) > i32::MIN);
        }
        law_label_targets(s, p + 4, (count - 1) as nat, next, new, i);
        assert(reader::targets_at(s, p, count as int, records, new) == reader::targets_at(
            s,
            p + 4,
            count - 1,
            next,
            new,
        ));
        if listed(s, p + 4, count - 1, i) {
            let k = choose|k: int|
                0 <= k < count - 1 && #[trigger] bytes::i32_at(s, p + 4 + 4 * k) == i + 1;
            assert(p + 4 * (k + 1) == p + 4 + 4 * k);
            assert(bytes::i32_at(s, p + 4 * (k + 1)) == i + 1);
        }
        if target == i {
            assert(bytes::i32_at(s, p + 4 * 0) == i + 1);
            lemma_labels_put(records[i].value_labels, new);
            if !listed(s, p + 4, count - 1, i) {
                assert(next[i].value_labels == reader::labels_and(records[i].value_labels, new));
            }
        }
        if listed(s, p, count as int, i) && target != i {
            let k = choose|k: int|
                0 <= k < count && #[trigger] bytes::i32_at(s, p + 4 * k) == i + 1;
            assert(k > 0);
            assert(p + 4 + 4 * (k - 1) == p + 4 * k);
            assert(bytes::i32_at(s, p + 4 + 4 * (k - 1)) == i + 1);
        }
    }
}

/// Each of the new labels, by its value without a fraction, is the label of that value
/// or gave way to a later one.
pub open spec fn label_keys(
    labels: Seq<(i64, Seq<char>)>,
    new: Seq<(Number, Seq<char>)>,
) -> bool {
    forall|k: int|
        0 <= k < new.len() && (forall|j: int|
            k < j < new.len() ==> key_of((#[trigger] new[j]).0) != key_of(new[k].0))
            ==> variable::label_of(labels, key_of((#[trigger] new[k]).0)) == Some(new[k].1)
}

/// A number as the value of a label.
pub open spec fn key_of(n: Number) -> i64 {
    n.saturated(i64::MIN as int, i64::MAX as int) as i64
}

proof fn lemma_labels_put(labels: Seq<(i64, Seq<char>)>, new: Seq<(Number, Seq<char>)>)
    ensures
        label_keys(reader::labels_and(labels, new), new),
    decreases new.len(),
{
    if new.len() > 0 {
        let head = new.drop_last();
        let before = reader::labels_and(labels, head);
        let all = reader::labels_and(labels, new);
        lemma_labels_put(labels, head);
        assert forall|k: int|
            0 <= k < new.len() && (forall|j: int|
                k < j < new.len() ==> key_of((#[trigger] new[j]).0) != key_of(
                    new[k].0,
                )) implies variable::label_of(all, key_of((#[trigger] new[k]).0)) == Some(
            new[k].1,
        ) by {
            lemma_put_and_get(before, key_of(new.last().0), new.last().1, key_of(new[k].0));
            if k < head.len() {
                assert(key_of(new[new.len() - 1].0) != key_of(new[k].0));
                assert forall|j: int| k < j < head.len() implies key_of((#[trigger] head[j]).0)
                    != key_of(head[k].0) by {
                    assert(new[j] == head[j]);
                }
                assert(head[k] == new[k]);
            }
        }
    }
}

proof fn lemma_put_and_get(
    labels: Seq<(i64, Seq<char>)>,
    key: i64,
    label: Seq<char>,
    other: i64,
)
    ensures
        variable::label_of(variable::labels_with(labels, key, label), key) == Some(label),
        other != key ==> variable::label_of(variable::labels_with(labels, key, label), other)
            == variable::label_of(labels, other),
{
    let after = variable::labels_with(labels, key, label);
    lemma_position_kept(labels, key, label, key, 0);
    lemma_position_kept(labels, key, label, other, 0);
}

proof fn lemma_position_kept(
    labels: Seq<(i64, Seq<char>)>,
    key: i64,
    label: Seq<char>,
    other: i64,
    from: int,
)
    requires
        0 <= from <= labels.len(),
        variable::label_position(labels, key, 0) == variable::label_position(labels, key, from),
    ensures
        ({
            let after = variable::labels_with(labels, key, label);
            &&& other != key ==> variable::label_position(after, other, from)
                == variable::label_position(labels, other, from) && (variable::label_position(
                labels,
                other,
                from,
            ) matches Some(i) ==> 0 <= i < labels.len() && i < after.len() && after[i]
                == labels[i])
            &&& variable::label_position(after, key, from) matches Some(i) && 0 <= i < after.len()
                && after[i] == (key, label)
        }),
    decreases labels.len() - from,
{
    let after = variable::labels_with(labels, key, label);
    let at = variable::label_position(labels, key, 0);
    variable::lemma_label_position(labels, key, 0);
    if from < labels.len() {
        if labels[from].0 == key {
            assert(at == Some(from));
            assert(after[from] == (key, label));
            if other != key {
                lemma_rest_kept(labels, after, from, other, from + 1);
            }
        } else {
            lemma_position_kept(labels, key, label, other, from + 1);
            assert(after[from] == labels[from]);
        }
    } else {
        assert(at is None);
        assert(after[labels.len() as int] == (key, label));
        assert(variable::label_position(after, key, from) == Some(from));
        if other != key {
            assert(variable::label_position(after, other, from + 1) is None);
        }
    }
}

proof fn lemma_rest_kept(
    labels: Seq<(i64, Seq<char>)>,
    after: Seq<(i64, Seq<char>)>,
    at: int,
    other: i64,
    from: int,
)
    requires
        0 <= at < from <= labels.len(),
        after.len() == labels.len(),
        forall|i: int| 0 <= i < labels.len() && i != at ==> #[trigger] after[i] == labels[i],
    ensures
        variable::label_position(after, other, from) == variable::label_position(
            labels,
            other,
            from,
        ),
        variable::label_position(labels, other, from) matches Some(i) ==> from <= i < labels.len()
            && after[i] == labels[i],
    decreases labels.len() - from,
{
    if from < labels.len() {
        assert(after[from] == labels[from]);
        lemma_rest_kept(labels, after, at, other, from + 1);
    }
}

/// An extension record that is not known is passed over: the dictionary stays as it
/// is, and reading goes on behind its bytes.
pub proof fn law_unknown_extension(s: Seq<u8>, p: int, d: DictionaryView)
    requires
        0 <= p,
        p + 16 <= s.len(),
        bytes::i32_at(s, p) == 7,
        bytes::i32_at(s, p + 4) != 11,
        bytes::i32_at(s, p + 4) != reader::LEVELS_SUBTYPE,
        bytes::i32_at(s, p + 8) >= 0,
        bytes::i32_at(s, p + 12) >= 0,
        p + 16 + bytes::i32_at(s, p + 8) * bytes::i32_at(s, p + 12) <= s.len(),
    ensures
        reader::dictionary_at(s, p, d) == reader::dictionary_at(
            s,
            p + 16 + bytes::i32_at(s, p + 8) * bytes::i32_at(s, p + 12),
            d,
        ),
{
    let q = p + 16 + bytes::i32_at(s, p + 8) * bytes::i32_at(s, p + 12);
    assert(reader::extension_at(s, p + 4, d) == Ok::<(DictionaryView, int), SavError>((d, q)));
    assert(reader::dictionary_step(s, p, d) == Ok::<(DictionaryView, int), SavError>((d, q)));
}

/// A record of a type that is not known ends the reading with its type.
pub proof fn law_unknown_record(s: Seq<u8>, p: int, d: DictionaryView)
    requires
        0 <= p,
        p + 4 <= s.len(),
        bytes::i32_at(s, p) != 2,
        bytes::i32_at(s, p) != 3,
        bytes::i32_at(s, p) != 7,
        bytes::i32_at(s, p) != 999,
    ensures
        reader::dictionary_at(s, p, d) == Err::<(DictionaryView, int), SavError>(
            SavError::UnsupportedRecord(bytes::i32_at(s, p)),
        ),
{
}

/// A file starts with `$FL2` or `$FL3`, followed by a layout code of 2: another start,
/// another layout and a file that ends too early are refused, each with its error.
pub proof fn law_refused_headers(s: Seq<u8>)
    ensures
        s.len() < 4 ==> reader::header_at(s) == Err::<SavHeader, SavError>(SavError::UnexpectedEof),
        s.len() >= 4 && (bytes::text_at(s, 0, 4) == "$FL2"@ || bytes::text_at(s, 0, 4) == "$FL3"@)
            ==> {
            &&& s.len() < 68 ==> reader::header_at(s) == Err::<SavHeader, SavError>(
                SavError::UnexpectedEof,
            )
            &&& s.len() >= 68 && bytes::i32_at(s, 64) != 2 ==> reader::header_at(s) == Err::<
                SavHeader,
                SavError,
            >(SavError::InvalidLayout(bytes::i32_at(s, 64)))
            &&& s.len() >= 176 && bytes::i32_at(s, 64) == 2 ==> reader::header_at(s) is Ok
        },
        s.len() >= 4 && bytes::text_at(s, 0, 4) != "$FL2"@ && bytes::text_at(s, 0, 4) != "$FL3"@
            ==> reader::header_at(s) == Err::<SavHeader, SavError>(SavError::InvalidHeader),
{
}

/// The codes of measurement levels: 1 is nominal, 2 ordinal, 3 a scale.
pub proof fn law_level_codes(levels: Seq<u8>, i: int)
    requires
        0 <= i < levels.len(),
    ensures
        levels[i] == 1 ==> reader::level_of(levels, i) == MeasureLevel::Nominal,
        levels[i] == 2 ==> reader::level_of(levels, i) == MeasureLevel::Ordinal,
        levels[i] == 3 ==> reader::level_of(levels, i) == MeasureLevel::Scale,
        reader::level_of(levels, levels.len() as int) == MeasureLevel::Scale,
{
}

/// A variable whose short name, in any case, is listed with a long name gets that name,
/// and nothing else of it changes; others keep theirs.
pub proof fn law_long_names(r: RecordView, names: Map<Seq<char>, Seq<char>>)
    ensures
        reader::renamed(r, names).name == if names.contains_key(text::uppercase(r.name)) {
            names[text::uppercase(r.name)]
        } else {
            r.name
        },
        (RecordView { name: r.name, ..reader::renamed(r, names) }) == r,
{
}

} // verus!
