//! The dataset: variable definitions and row data.
use vstd::hash_map::StringHashMap;
use vstd::prelude::*;

use crate::batch;
use crate::batch::{
    copy_columns, copy_fields, Batch, BatchView, Cell, CellView, Column, ColumnView, Field, FieldView,
};
use crate::text;
use crate::text::to_upper;
use crate::value::{Value, ValueView};
use crate::variable::{Variable, VariableType, VariableView};

verus! {

broadcast use crate::text::lemma_views_push;

/// A statistical dataset: columnar data + variable metadata.
pub struct Dataset {
    /// Variable definitions, ordered by position.
    pub variables: Vec<Variable>,
    /// Variable name → index lookup.
    pub name_index: StringHashMap<usize>,
    /// Row data in batches.
    pub batches: Vec<Batch>,
}

/// What a [`Dataset`] holds.
#[verifier::ext_equal]
pub struct DatasetView {
    pub variables: Seq<VariableView>,
    /// From a name in upper case to the variable's position.
    pub names: Map<Seq<char>, usize>,
    pub batches: Seq<BatchView>,
}

impl View for Dataset {
    type V = DatasetView;

    open spec fn view(&self) -> DatasetView {
        DatasetView {
            variables: text::views(self.variables@),
            names: self.name_index@,
            batches: text::views(self.batches@),
        }
    }
}

/// The name lookup after all `vars` were added in order: of two variables of
/// one name the later is found.
pub open spec fn names_of(vars: Seq<VariableView>) -> Map<Seq<char>, usize>
    decreases vars.len(),
{
    if vars.len() == 0 {
        Map::empty()
    } else {
        names_of(vars.drop_last()).insert(
            text::uppercase(vars.last().name),
            (vars.len() - 1) as usize,
        )
    }
}

/// The dataset with these variables, added in order, and these batches.
pub open spec fn dataset_of(vars: Seq<VariableView>, batches: Seq<BatchView>) -> DatasetView {
    DatasetView { variables: vars, names: names_of(vars), batches }
}

/// The fields of the variables.
pub open spec fn fields_for(vars: Seq<VariableView>) -> Seq<FieldView> {
    Seq::new(
        vars.len(),
        |i: int| FieldView { name: vars[i].name, kind: batch::kind_of_type(vars[i].var_type) },
    )
}

/// The number of rows of several batches.
pub open spec fn rows_in(batches: Seq<BatchView>) -> nat
    decreases batches.len(),
{
    if batches.len() == 0 {
        0
    } else {
        rows_in(batches.drop_last()) + batches.last().num_rows as nat
    }
}

/// A batch with a column put in place of the one at `at`, or behind the last.
/// There is none where the batch has no column at `at`.
pub open spec fn batch_with_column(
    b: BatchView,
    at: Option<usize>,
    name: Seq<char>,
    column: ColumnView,
) -> Option<Result<BatchView, Seq<char>>> {
    let field = FieldView { name, kind: column.kind };
    match at {
        Some(i) => if i < b.fields.len() && i < b.columns.len() {
            Some(batch::batch_of(b.fields.update(i as int, field), b.columns.update(i as int, column)))
        } else {
            None
        },
        None => Some(batch::batch_of(b.fields.push(field), b.columns.push(column))),
    }
}

/// The batches with a column put into each, or the first error.
pub open spec fn batches_with_column(
    batches: Seq<BatchView>,
    at: Option<usize>,
    name: Seq<char>,
    columns: Seq<ColumnView>,
) -> Option<Result<Seq<BatchView>, Seq<char>>>
    decreases batches.len(),
{
    if batches.len() == 0 {
        Some(Ok(Seq::empty()))
    } else {
        match batches_with_column(batches.drop_last(), at, name, columns) {
            Some(Ok(done)) => if batches.len() <= columns.len() {
                match batch_with_column(batches.last(), at, name, columns[batches.len() - 1]) {
                    Some(Ok(b)) => Some(Ok(done.push(b))),
                    Some(Err(e)) => Some(Err(e)),
                    None => None,
                }
            } else {
                None
            },
            stopped => stopped,
        }
    }
}

/// A cell as the value of a variable of a type.
pub open spec fn raw_value(t: VariableType, cell: CellView) -> ValueView {
    match (t, cell) {
        (VariableType::Numeric, CellView::Number(n)) => ValueView::Numeric(n),
        (VariableType::String(_), CellView::Text(s)) => ValueView::String(s),
        _ => ValueView::SystemMissing,
    }
}

/// A cell as the value of a variable. A user-missing number is missing.
pub open spec fn value_of_cell(var: VariableView, cell: CellView) -> ValueView {
    match raw_value(var.var_type, cell) {
        ValueView::Numeric(n) => if var.missing.holds(n) {
            ValueView::SystemMissing
        } else {
            ValueView::Numeric(n)
        },
        v => v,
    }
}

/// A column entry that can be read as a value of a variable of a type: null, or
/// of the type's own kind.
pub open spec fn legible(t: VariableType, column: ColumnView, row: int) -> bool {
    column.cells[row] is Null || match t {
        VariableType::Numeric => column.kind is Float64 && column.cells[row] is Number,
        VariableType::String(_) => column.kind is Utf8 && column.cells[row] is Text,
    }
}

impl DatasetView {
    /// The names lead to variables, and the batches are in order.
    pub open spec fn wf(self) -> bool {
        &&& forall|k: Seq<char>| #[trigger]
            self.names.contains_key(k) ==> self.names[k] < self.variables.len()
        &&& batch::all_wf(self.batches)
    }

    /// The position of the variable of a name, in any case.
    pub open spec fn index_of(self, name: Seq<char>) -> Option<usize> {
        let key = text::uppercase(name);
        if self.names.contains_key(key) {
            Some(self.names[key])
        } else {
            None
        }
    }

    /// The number of cases.
    pub open spec fn n_cases(self) -> nat {
        rows_in(self.batches)
    }

    /// The entry of a variable in a row is there and legible.
    pub open spec fn legible_at(self, b: int, r: int, idx: int) -> bool {
        &&& idx < self.batches[b].columns.len()
        &&& legible(self.variables[idx].var_type, self.batches[b].columns[idx], r)
    }

    /// Every entry of a variable is there and legible.
    pub open spec fn readable(self, idx: int) -> bool {
        forall|b: int, r: int|
            0 <= b < self.batches.len() && 0 <= r < self.batches[b].num_rows
                ==> #[trigger] self.legible_at(b, r, idx)
    }

    /// The value of a variable in a row.
    pub open spec fn value_at(self, b: int, r: int, idx: int) -> ValueView {
        value_of_cell(self.variables[idx], self.batches[b].columns[idx].cells[r])
    }

    /// The dataset after a variable was added.
    pub open spec fn with_variable(self, var: VariableView) -> DatasetView {
        DatasetView {
            variables: self.variables.push(var),
            names: self.names.insert(text::uppercase(var.name), self.variables.len() as usize),
            batches: self.batches,
        }
    }
}

/// The names of variables that were added in order lead to them.
pub proof fn lemma_names_in_range(vars: Seq<VariableView>)
    requires
        vars.len() <= usize::MAX,
    ensures
        forall|k: Seq<char>| #[trigger]
            names_of(vars).contains_key(k) ==> names_of(vars)[k] < vars.len(),
    decreases vars.len(),
{
    if vars.len() > 0 {
        lemma_names_in_range(vars.drop_last());
        assert forall|k: Seq<char>| #[trigger]
            names_of(vars).contains_key(k) implies names_of(vars)[k] < vars.len() by {
            if k != text::uppercase(vars.last().name) {
                assert(names_of(vars.drop_last()).contains_key(k));
            }
        }
    }
}

/// A variable that was added is found under its name, and under every name that
/// differs in case only; the others are found as before.
pub proof fn law_added_variable_is_found(ds: DatasetView, var: VariableView, name: Seq<char>)
    requires
        ds.wf(),
        ds.variables.len() < usize::MAX,
    ensures
        ds.with_variable(var).wf(),
        text::uppercase(name) == text::uppercase(var.name) ==> ds.with_variable(var).index_of(name)
            == Some(ds.variables.len() as usize),
        text::uppercase(name) != text::uppercase(var.name) ==> ds.with_variable(var).index_of(name)
            == ds.index_of(name),
{
}

pub proof fn lemma_rows_split(batches: Seq<BatchView>, n: int)
    requires
        0 <= n <= batches.len(),
    ensures
        rows_in(batches.take(n)) <= rows_in(batches),
        n < batches.len() ==> rows_in(batches.take(n + 1)) == rows_in(batches.take(n))
            + batches[n].num_rows,
    decreases batches.len() - n,
{
    if n < batches.len() {
        assert(batches.take(n + 1).drop_last() =~= batches.take(n));
        lemma_rows_split(batches, n + 1);
    } else {
        assert(batches.take(n) =~= batches);
    }
}

/// The value that a cell holds for a variable of a type.
pub fn read_raw(t: VariableType, cell: &Cell) -> (r: Value)
    ensures
        r@ == raw_value(t, cell@),
{
    match t {
        VariableType::Numeric => match cell {
            Cell::Number(n) => Value::Numeric(*n),
            _ => Value::SystemMissing,
        },
        VariableType::String(_) => match cell {
            Cell::Text(s) => Value::String(s.clone()),
            _ => Value::SystemMissing,
        },
    }
}

/// The value that a cell holds for a variable.
pub fn read_cell(var: &Variable, cell: &Cell) -> (r: Value)
    ensures
        r@ == value_of_cell(var@, cell@),
{
    match read_raw(var.var_type, cell) {
        Value::Numeric(n) => if var.missing.is_user_missing(n) {
            Value::SystemMissing
        } else {
            Value::Numeric(n)
        },
        v => v,
    }
}

impl Dataset {
    /// Create an empty dataset.
    pub fn new() -> (r: Self)
        ensures
            r@ == dataset_of(Seq::empty(), Seq::empty()),
            r@.wf(),
    {
        let r = Dataset {
            variables: Vec::new(),
            name_index: StringHashMap::new(),
            batches: Vec::new(),
        };
        proof {
            assert(r@ =~= dataset_of(Seq::empty(), Seq::empty()));
        }
        r
    }

    /// Number of variables (columns).
    pub fn n_variables(&self) -> (r: usize)
        ensures
            r == self@.variables.len(),
    {
        self.variables.len()
    }

    /// Number of cases (rows) across all batches.
    pub fn n_cases(&self) -> (r: usize)
        requires
            self@.n_cases() <= usize::MAX,
        ensures
            r == self@.n_cases(),
    {
        let mut n: usize = 0;
        let mut i: usize = 0;
        while i < self.batches.len()
            invariant
                i <= self.batches.len(),
                self@.n_cases() <= usize::MAX,
                n == rows_in(self@.batches.take(i as int)),
            decreases self.batches.len() - i,
        {
            proof {
                lemma_rows_split(self@.batches, i as int);
                lemma_rows_split(self@.batches, i + 1);
            }
            n = n + self.batches[i].num_rows;
            i = i + 1;
        }
        proof {
            assert(self@.batches.take(self@.batches.len() as int) =~= self@.batches);
        }
        n
    }

    /// Look up a variable by name (case-insensitive).
    pub fn variable(&self, name: &str) -> (r: Option<&Variable>)
        requires
            self@.wf(),
        ensures
            match r {
                Some(v) => self@.index_of(name@) matches Some(i) && self@.variables[i as int] == v@,
                None => self@.index_of(name@) is None,
            },
    {
        match self.variable_index(name) {
            Some(i) => Some(&self.variables[i]),
            None => None,
        }
    }

    /// Look up a variable's index by name (case-insensitive).
    pub fn variable_index(&self, name: &str) -> (r: Option<usize>)
        ensures
            r == self@.index_of(name@),
            self@.wf() ==> (r matches Some(i) ==> i < self.variables@.len()),
    {
        let key = to_upper(name);
        match self.name_index.get(key.as_str()) {
            Some(i) => Some(*i),
            None => None,
        }
    }

    /// Add a variable definition.
    pub fn add_variable(&mut self, var: Variable)
        ensures
            final(self)@ == old(self)@.with_variable(var@),
            old(self)@.wf() ==> final(self)@.wf(),
    {
        let key = to_upper(var.name.as_str());
        let idx = self.variables.len();
        self.name_index.insert(key, idx);
        self.variables.push(var);
        proof {
            assert(self@.variables.len() == idx + 1);
            assert(self@.names == old(self)@.names.insert(text::uppercase(var.name@), idx));
        }
    }

    /// A dataset with these variables, added in order, and these batches.
    pub fn from_parts(variables: Vec<Variable>, batches: Vec<Batch>) -> (r: Self)
        ensures
            r@ == dataset_of(text::views(variables@), text::views(batches@)),
            batch::all_wf(text::views(batches@)) ==> r@.wf(),
    {
        let mut names: StringHashMap<usize> = StringHashMap::new();
        let ghost vv = text::views(variables@);
        let mut i: usize = 0;
        proof {
            assert(vv.take(0) =~= Seq::<VariableView>::empty());
        }
        while i < variables.len()
            invariant
                i <= variables.len(),
                vv == text::views(variables@),
                names@ == names_of(vv.take(i as int)),
            decreases variables.len() - i,
        {
            let key = to_upper(variables[i].name.as_str());
            names.insert(key, i);
            proof {
                assert(vv.take(i + 1).drop_last() =~= vv.take(i as int));
            }
            i = i + 1;
        }
        proof {
            assert(vv.take(vv.len() as int) =~= vv);
            lemma_names_in_range(vv);
        }
        Dataset { variables, name_index: names, batches }
    }

    /// Insert or replace a column in the dataset: `arrays` holds one column for
    /// each batch. The variable is put in place even where a batch then does not
    /// take its column.
    pub fn insert_or_replace_column(
        &mut self,
        name: &str,
        var: Variable,
        arrays: Vec<Column>,
    ) -> (r: Result<(), String>)
        requires
            old(self)@.wf(),
            batches_with_column(
                old(self)@.batches,
                old(self)@.index_of(name@),
                name@,
                text::views(arrays@),
            ) is Some,
        ensures
            final(self)@.names == old(self)@.names.insert(
                text::uppercase(name@),
                match old(self)@.index_of(name@) {
                    Some(i) => i,
                    None => old(self)@.variables.len() as usize,
                },
            ),
            final(self)@.variables == match old(self)@.index_of(name@) {
                Some(i) => old(self)@.variables.update(i as int, var@),
                None => old(self)@.variables.push(var@),
            },
            match batches_with_column(
                old(self)@.batches,
                old(self)@.index_of(name@),
                name@,
                text::views(arrays@),
            )->0 {
                Ok(batches) => r is Ok && final(self)@.batches == batches,
                Err(e) => r matches Err(x) && x@ == e && final(self)@.batches == old(self)@.batches,
            },
            final(self)@.wf(),
    {
        let at = self.variable_index(name);
        let ghost old_names = self@.names;
        proof {
            assert(self@.variables.len() == self.variables.len());
        }
        match at {
            Some(i) => {
                self.variables.set(i, var);
                proof {
                    assert(self@.variables =~= old(self)@.variables.update(i as int, var@));
                    assert(old_names =~= old_names.insert(text::uppercase(name@), i));
                }
            },
            None => {
                let key = to_upper(name);
                let i = self.variables.len();
                self.name_index.insert(key, i);
                self.variables.push(var);
            },
        }
        let ghost bv = text::views(self.batches@);
        let ghost av = text::views(arrays@);
        let mut done: Vec<Batch> = Vec::new();
        let mut i: usize = 0;
        proof {
            assert(bv.take(0) =~= Seq::<BatchView>::empty());
            assert(text::views(done@) =~= Seq::<BatchView>::empty());
            assert(bv.take(bv.len() as int) =~= bv);
        }
        while i < self.batches.len()
            invariant
                i <= self.batches.len(),
                bv == text::views(self.batches@),
                av == text::views(arrays@),
                batches_with_column(bv, at, name@, av) is Some,
                batches_with_column(bv.take(i as int), at, name@, av) == Some(
                    Ok::<Seq<BatchView>, Seq<char>>(text::views(done@)),
                ),
                old(self)@.batches == bv,
                at == old(self)@.index_of(name@),
                self@.names == old_names.insert(
                    text::uppercase(name@),
                    match at {
                        Some(i) => i,
                        None => old(self)@.variables.len() as usize,
                    },
                ),
                self@.variables == match at {
                    Some(i) => old(self)@.variables.update(i as int, var@),
                    None => old(self)@.variables.push(var@),
                },
                old_names == old(self)@.names,
                old(self)@.wf(),
                at matches Some(i) ==> i < old(self)@.variables.len(),
                old(self)@.variables.len() <= usize::MAX,
                batch::all_wf(text::views(done@)),
            decreases self.batches.len() - i,
        {
            proof {
                assert(bv.take(i + 1).drop_last() =~= bv.take(i as int));
                assert(bv.take(i + 1).last() == bv[i as int]);
                lemma_prefix_has_outcome(bv, at, name@, av, i + 1);
            }
            let column = arrays[i].clone();
            let field = Field { name: name.to_owned(), kind: column.kind.clone() };
            let mut fields = copy_fields(&self.batches[i].fields);
            let mut columns = copy_columns(&self.batches[i].columns);
            match at {
                Some(k) => {
                    fields.set(k, field);
                    columns.set(k, column);
                    proof {
                        let b = bv[i as int];
                        assert(text::views(fields@) =~= b.fields.update(
                            k as int,
                            FieldView { name: name@, kind: av[i as int].kind },
                        ));
                        assert(text::views(columns@) =~= b.columns.update(k as int, av[i as int]));
                    }
                },
                None => {
                    fields.push(field);
                    columns.push(column);
                },
            }
            match Batch::try_new(fields, columns) {
                Ok(b) => {
                    done.push(b);
                },
                Err(e) => {
                    proof {
                        lemma_error_stays(bv, at, name@, av, i + 1);
                    }
                    return Err(e);
                },
            }
            i = i + 1;
        }
        self.batches = done;
        Ok(())
    }

    /// Insert or replace a column, where each batch gets one and has a column in
    /// its place. Otherwise the dataset is not changed.
    pub fn try_insert_or_replace_column(
        &mut self,
        name: &str,
        var: Variable,
        arrays: Vec<Column>,
    ) -> (r: Option<Result<(), String>>)
        requires
            old(self)@.wf(),
        ensures
            match batches_with_column(
                old(self)@.batches,
                old(self)@.index_of(name@),
                name@,
                text::views(arrays@),
            ) {
                None => r is None && final(self)@ == old(self)@,
                Some(outcome) => {
                    &&& final(self)@.names == old(self)@.names.insert(
                        text::uppercase(name@),
                        match old(self)@.index_of(name@) {
                            Some(i) => i,
                            None => old(self)@.variables.len() as usize,
                        },
                    )
                    &&& final(self)@.variables == match old(self)@.index_of(name@) {
                        Some(i) => old(self)@.variables.update(i as int, var@),
                        None => old(self)@.variables.push(var@),
                    }
                    &&& match outcome {
                        Ok(batches) => (r matches Some(Ok(_))) && final(self)@.batches
                            == batches,
                        Err(e) => r matches Some(Err(x)) && x@ == e && final(self)@.batches
                            == old(self)@.batches,
                    }
                },
            },
            final(self)@.wf(),
    {
        if !self.takes_columns(name, &arrays) {
            return None;
        }
        Some(self.insert_or_replace_column(name, var, arrays))
    }

    /// Whether each batch gets a column and has one in its place, up to the first
    /// batch that does not take its column.
    fn takes_columns(&self, name: &str, arrays: &Vec<Column>) -> (r: bool)
        ensures
            r == (batches_with_column(
                self@.batches,
                self@.index_of(name@),
                name@,
                text::views(arrays@),
            ) is Some),
    {
        let at = self.variable_index(name);
        let ghost bv = self@.batches;
        let ghost av = text::views(arrays@);
        let mut i: usize = 0;
        proof {
            assert(bv.take(0) =~= Seq::<BatchView>::empty());
        }
        while i < self.batches.len()
            invariant
                i <= self.batches@.len(),
                bv == self@.batches,
                av == text::views(arrays@),
                at == self@.index_of(name@),
                batches_with_column(bv.take(i as int), at, name@, av) matches Some(Ok(_)),
            decreases self.batches@.len() - i,
        {
            proof {
                assert(bv.take(i + 1).drop_last() =~= bv.take(i as int));
                assert(bv.take(i + 1).last() == bv[i as int]);
            }
            if i >= arrays.len() {
                proof {
                    lemma_fault_stays(bv, at, name@, av, i + 1);
                }
                return false;
            }
            let mut fields = copy_fields(&self.batches[i].fields);
            let mut columns = copy_columns(&self.batches[i].columns);
            let field = Field { name: name.to_owned(), kind: arrays[i].kind.clone() };
            match at {
                Some(k) => {
                    if k >= fields.len() || k >= columns.len() {
                        proof {
                            lemma_fault_stays(bv, at, name@, av, i + 1);
                        }
                        return false;
                    }
                    fields.set(k, field);
                    columns.set(k, arrays[i].clone());
                    proof {
                        let b = bv[i as int];
                        assert(text::views(fields@) =~= b.fields.update(
                            k as int,
                            FieldView { name: name@, kind: av[i as int].kind },
                        ));
                        assert(text::views(columns@) =~= b.columns.update(k as int, av[i as int]));
                    }
                },
                None => {
                    fields.push(field);
                    columns.push(arrays[i].clone());
                },
            }
            if Batch::try_new(fields, columns).is_err() {
                proof {
                    lemma_error_stays(bv, at, name@, av, i + 1);
                }
                return true;
            }
            i = i + 1;
        }
        proof {
            assert(bv.take(bv.len() as int) =~= bv);
        }
        true
    }
}

proof fn lemma_fault_stays(
    batches: Seq<BatchView>,
    at: Option<usize>,
    name: Seq<char>,
    columns: Seq<ColumnView>,
    n: int,
)
    requires
        0 <= n <= batches.len(),
        batches_with_column(batches.take(n), at, name, columns) is None,
    ensures
        batches_with_column(batches, at, name, columns) is None,
    decreases batches.len() - n,
{
    if n < batches.len() {
        assert(batches.take(n + 1).drop_last() =~= batches.take(n));
        lemma_fault_stays(batches, at, name, columns, n + 1);
    } else {
        assert(batches.take(n) =~= batches);
    }
}

proof fn lemma_prefix_has_outcome(
    batches: Seq<BatchView>,
    at: Option<usize>,
    name: Seq<char>,
    columns: Seq<ColumnView>,
    n: int,
)
    requires
        0 <= n <= batches.len(),
        batches_with_column(batches, at, name, columns) is Some,
    ensures
        batches_with_column(batches.take(n), at, name, columns) is Some,
    decreases batches.len() - n,
{
    if n < batches.len() {
        lemma_prefix_has_outcome(batches, at, name, columns, n + 1);
        assert(batches.take(n + 1).drop_last() =~= batches.take(n));
    } else {
        assert(batches.take(n) =~= batches);
    }
}

proof fn lemma_error_stays(
    batches: Seq<BatchView>,
    at: Option<usize>,
    name: Seq<char>,
    columns: Seq<ColumnView>,
    n: int,
)
    requires
        0 <= n <= batches.len(),
        batches_with_column(batches.take(n), at, name, columns) matches Some(Err(_)),
    ensures
        batches_with_column(batches, at, name, columns) == batches_with_column(
            batches.take(n),
            at,
            name,
            columns,
        ),
    decreases batches.len() - n,
{
    if n < batches.len() {
        assert(batches.take(n + 1).drop_last() =~= batches.take(n));
        lemma_error_stays(batches, at, name, columns, n + 1);
    } else {
        assert(batches.take(n) =~= batches);
    }
}

impl Default for Dataset {
    fn default() -> (r: Self)
        ensures
            r@ == dataset_of(Seq::empty(), Seq::empty()),
            r@.wf(),
    {
        Dataset::new()
    }
}

} // verus!
