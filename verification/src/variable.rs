//! Variable definitions.
use vstd::prelude::*;

use crate::value::{MissingValues, MissingView};

verus! {

/// Variable data type.
#[derive(Debug, Clone, Copy, PartialEq, Eq, Structural)]
pub enum VariableType {
    Numeric,
    /// String with max width in bytes.
    String(u32),
}

/// SPSS measurement level.
#[derive(Debug, Clone, Copy, PartialEq, Eq, Structural)]
pub enum MeasureLevel {
    Scale,
    Ordinal,
    Nominal,
}

/// The labels of a variable's values: each integer has at most one, and the
/// one that was put in first comes first.
#[derive(Debug)]
pub struct ValueLabels {
    entries: Vec<(i64, String)>,
}

/// The labels in order, as `(value, label)`.
pub open spec fn labels_view(entries: Seq<(i64, String)>) -> Seq<(i64, Seq<char>)> {
    Seq::new(entries.len(), |i: int| (entries[i].0, entries[i].1@))
}

/// No value occurs twice.
pub open spec fn distinct_keys(labels: Seq<(i64, Seq<char>)>) -> bool {
    forall|i: int, j: int|
        0 <= i < labels.len() && 0 <= j < labels.len() && #[trigger] labels[i].0 == #[trigger] labels[j].0
            ==> i == j
}

/// The position of a value from `from` on.
pub open spec fn label_position(labels: Seq<(i64, Seq<char>)>, key: i64, from: int) -> Option<int>
    decreases labels.len() - from,
{
    if from < 0 || from >= labels.len() {
        None
    } else if labels[from].0 == key {
        Some(from)
    } else {
        label_position(labels, key, from + 1)
    }
}

/// `labels` after a label was put in: it takes the place of an earlier one of
/// the same value, or comes last.
pub open spec fn labels_with(
    labels: Seq<(i64, Seq<char>)>,
    key: i64,
    label: Seq<char>,
) -> Seq<(i64, Seq<char>)> {
    match label_position(labels, key, 0) {
        Some(i) => labels.update(i, (key, label)),
        None => labels.push((key, label)),
    }
}

/// Where a value is found, it is there; where it is not, it is nowhere.
pub proof fn lemma_label_position(labels: Seq<(i64, Seq<char>)>, key: i64, from: int)
    requires
        0 <= from,
    ensures
        match label_position(labels, key, from) {
            Some(i) => from <= i < labels.len() && labels[i].0 == key,
            None => forall|j: int| from <= j < labels.len() ==> (#[trigger] labels[j]).0 != key,
        },
    decreases labels.len() - from,
{
    if from < labels.len() && labels[from].0 != key {
        lemma_label_position(labels, key, from + 1);
    }
}

/// Putting in a label keeps the values distinct, gives the value this label and
/// leaves every other label as it was.
pub proof fn law_insert_label(labels: Seq<(i64, Seq<char>)>, key: i64, label: Seq<char>, other: i64)
    requires
        distinct_keys(labels),
    ensures
        distinct_keys(labels_with(labels, key, label)),
        label_of(labels_with(labels, key, label), key) == Some(label),
        other != key ==> label_of(labels_with(labels, key, label), other) == label_of(labels, other),
{
    let after = labels_with(labels, key, label);
    lemma_label_position(labels, key, 0);
    lemma_label_position(after, key, 0);
    lemma_label_position(labels, other, 0);
    lemma_label_position(after, other, 0);
    match label_position(labels, key, 0) {
        Some(i) => {
            assert forall|x: int, y: int|
                0 <= x < after.len() && 0 <= y < after.len() && #[trigger] after[x].0
                    == #[trigger] after[y].0 implies x == y by {
                assert(labels[x].0 == labels[y].0);
            }
            assert(after[i].0 == key);
            if other != key {
                match label_position(labels, other, 0) {
                    Some(j) => {
                        assert(after[j].0 == other);
                    },
                    None => {
                        match label_position(after, other, 0) {
                            Some(j) => {
                                assert(labels[j].0 == other);
                            },
                            None => {},
                        }
                    },
                }
            }
        },
        None => {
            assert forall|x: int, y: int|
                0 <= x < after.len() && 0 <= y < after.len() && #[trigger] after[x].0
                    == #[trigger] after[y].0 implies x == y by {
                if x < labels.len() && y < labels.len() {
                    assert(labels[x].0 == labels[y].0);
                } else if x < labels.len() {
                    assert(labels[x].0 != key);
                } else if y < labels.len() {
                    assert(labels[y].0 != key);
                }
            }
            assert(after[labels.len() as int].0 == key);
            if other != key {
                match label_position(labels, other, 0) {
                    Some(j) => {
                        assert(after[j].0 == other);
                    },
                    None => {
                        match label_position(after, other, 0) {
                            Some(j) => {
                                assert(j < labels.len());
                                assert(labels[j].0 == other);
                            },
                            None => {},
                        }
                    },
                }
            }
        },
    }
}

/// The label of a value.
pub open spec fn label_of(labels: Seq<(i64, Seq<char>)>, key: i64) -> Option<Seq<char>> {
    match label_position(labels, key, 0) {
        Some(i) => Some(labels[i].1),
        None => None,
    }
}

impl View for ValueLabels {
    type V = Seq<(i64, Seq<char>)>;

    closed spec fn view(&self) -> Seq<(i64, Seq<char>)> {
        labels_view(self.entries@)
    }
}

impl Clone for ValueLabels {
    fn clone(&self) -> (r: Self)
        ensures
            r@ == self@,
    {
        let mut entries: Vec<(i64, String)> = Vec::new();
        let mut i: usize = 0;
        while i < self.entries.len()
            invariant
                i <= self.entries.len(),
                labels_view(entries@) =~= self@.take(i as int),
            decreases self.entries.len() - i,
        {
            let ghost before = labels_view(entries@);
            entries.push((self.entries[i].0, self.entries[i].1.clone()));
            proof {
                assert(labels_view(entries@) =~= before.push(self@[i as int]));
            }
            i = i + 1;
        }
        proof {
            use_type_invariant(self);
            assert(self@.take(self@.len() as int) =~= self@);
        }
        ValueLabels { entries }
    }
}

impl ValueLabels {
    /// No value occurs twice.
    #[verifier::type_invariant]
    spec fn valid(&self) -> bool {
        distinct_keys(labels_view(self.entries@))
    }

    /// No labels.
    pub fn new() -> (r: Self)
        ensures
            r@ == Seq::<(i64, Seq<char>)>::empty(),
    {
        let r = ValueLabels { entries: Vec::new() };
        proof {
            assert(r@ =~= Seq::<(i64, Seq<char>)>::empty());
        }
        r
    }

    /// The number of labels.
    pub fn len(&self) -> (r: usize)
        ensures
            r == self@.len(),
            distinct_keys(self@),
    {
        proof {
            use_type_invariant(self);
        }
        self.entries.len()
    }

    /// The value and the label at a position.
    pub fn entry(&self, i: usize) -> (r: (i64, &String))
        requires
            i < self@.len(),
        ensures
            (r.0, r.1@) == self@[i as int],
    {
        (self.entries[i].0, &self.entries[i].1)
    }

    /// Whether there is no label.
    pub fn is_empty(&self) -> (r: bool)
        ensures
            r == (self@.len() == 0),
    {
        self.entries.len() == 0
    }

    fn position(&self, key: i64) -> (r: Option<usize>)
        ensures
            match r {
                Some(i) => i < self@.len() && label_position(self@, key, 0) == Some(i as int),
                None => label_position(self@, key, 0) is None,
            },
    {
        let mut i: usize = 0;
        while i < self.entries.len()
            invariant
                i <= self.entries.len(),
                label_position(self@, key, 0) == label_position(self@, key, i as int),
            decreases self.entries.len() - i,
        {
            if self.entries[i].0 == key {
                return Some(i);
            }
            i = i + 1;
        }
        None
    }

    /// The label of a value.
    pub fn get(&self, key: &i64) -> (r: Option<&String>)
        ensures
            match r {
                Some(s) => label_of(self@, *key) == Some(s@),
                None => label_of(self@, *key) is None,
            },
    {
        match self.position(*key) {
            Some(i) => Some(&self.entries[i].1),
            None => None,
        }
    }

    /// Gives a value its label.
    pub fn insert(&mut self, key: i64, label: String)
        ensures
            final(self)@ == labels_with(old(self)@, key, label@),
    {
        let ghost before = self@;
        let ghost text = label@;
        proof {
            use_type_invariant(&*self);
            law_insert_label(before, key, text, key);
        }
        let at = self.position(key);
        let mut entries: Vec<(i64, String)> = Vec::new();
        std::mem::swap(&mut entries, &mut self.entries);
        match at {
            Some(i) => {
                entries.set(i, (key, label));
                proof {
                    assert(labels_view(entries@) =~= before.update(i as int, (key, text)));
                }
            },
            None => {
                entries.push((key, label));
                proof {
                    assert(labels_view(entries@) =~= before.push((key, text)));
                }
            },
        }
        *self = ValueLabels { entries };
    }
}

/// A variable (column) definition with full SPSS-style metadata.
#[derive(Debug)]
pub struct Variable {
    /// Variable name (up to 64 chars, no spaces).
    pub name: String,
    pub var_type: VariableType,
    pub measure: MeasureLevel,
    /// Descriptive label.
    pub label: Option<String>,
    /// Value labels: numeric value → label string.
    pub value_labels: ValueLabels,
    /// User-defined missing values.
    pub missing: MissingValues,
    /// Display width.
    pub print_width: u8,
    /// Decimal places for display.
    pub print_decimals: u8,
}

/// What a [`Variable`] holds.
#[verifier::ext_equal]
pub struct VariableView {
    pub name: Seq<char>,
    pub var_type: VariableType,
    pub measure: MeasureLevel,
    pub label: Option<Seq<char>>,
    pub value_labels: Seq<(i64, Seq<char>)>,
    pub missing: MissingView,
    pub print_width: u8,
    pub print_decimals: u8,
}

/// An optional text.
pub open spec fn text_option(o: Option<String>) -> Option<Seq<char>> {
    match o {
        Some(s) => Some(s@),
        None => None,
    }
}

/// A copy of an optional text.
pub fn copy_option(o: &Option<String>) -> (r: Option<String>)
    ensures
        text_option(r) == text_option(*o),
{
    match o {
        Some(s) => Some(s.clone()),
        None => None,
    }
}

impl View for Variable {
    type V = VariableView;

    open spec fn view(&self) -> VariableView {
        VariableView {
            name: self.name@,
            var_type: self.var_type,
            measure: self.measure,
            label: text_option(self.label),
            value_labels: self.value_labels@,
            missing: self.missing@,
            print_width: self.print_width,
            print_decimals: self.print_decimals,
        }
    }
}

impl Clone for Variable {
    fn clone(&self) -> (r: Self)
        ensures
            r@ == self@,
    {
        Variable {
            name: self.name.clone(),
            var_type: self.var_type,
            measure: self.measure,
            label: copy_option(&self.label),
            value_labels: self.value_labels.clone(),
            missing: self.missing.clone(),
            print_width: self.print_width,
            print_decimals: self.print_decimals,
        }
    }
}

/// A numeric variable with defaults.
pub open spec fn numeric_variable(name: Seq<char>) -> VariableView {
    VariableView {
        name,
        var_type: VariableType::Numeric,
        measure: MeasureLevel::Scale,
        label: None,
        value_labels: Seq::empty(),
        missing: MissingView::none(),
        print_width: 8,
        print_decimals: 2,
    }
}

/// A string variable of a width. The display width keeps the low eight bits.
pub open spec fn string_variable(name: Seq<char>, width: u32) -> VariableView {
    VariableView {
        name,
        var_type: VariableType::String(width),
        measure: MeasureLevel::Nominal,
        label: None,
        value_labels: Seq::empty(),
        missing: MissingView::none(),
        print_width: (width % 256) as u8,
        print_decimals: 0,
    }
}

/// A variable with the defaults of its type.
pub open spec fn variable_of(name: Seq<char>, var_type: VariableType) -> VariableView {
    match var_type {
        VariableType::Numeric => numeric_variable(name),
        VariableType::String(w) => string_variable(name, w),
    }
}

impl Variable {
    /// Create a numeric variable with defaults.
    pub fn numeric(name: &str) -> (r: Self)
        ensures
            r@ == numeric_variable(name@),
    {
        Variable {
            name: name.to_owned(),
            var_type: VariableType::Numeric,
            measure: MeasureLevel::Scale,
            label: None,
            value_labels: ValueLabels::new(),
            missing: MissingValues::default(),
            print_width: 8,
            print_decimals: 2,
        }
    }

    /// Create a string variable with given width.
    pub fn string(name: &str, width: u32) -> (r: Self)
        ensures
            r@ == string_variable(name@, width),
    {
        Variable {
            name: name.to_owned(),
            var_type: VariableType::String(width),
            measure: MeasureLevel::Nominal,
            label: None,
            value_labels: ValueLabels::new(),
            missing: MissingValues::default(),
            print_width: (width % 256) as u8,
            print_decimals: 0,
        }
    }

    /// Create a variable with the defaults of its type.
    pub fn of_type(name: &str, var_type: VariableType) -> (r: Self)
        ensures
            r@ == variable_of(name@, var_type),
    {
        match var_type {
            VariableType::Numeric => Variable::numeric(name),
            VariableType::String(w) => Variable::string(name, w),
        }
    }
}

} // verus!
