//! Parquet files: variable definitions that travel with the columns.
use vstd::prelude::*;

use crate::batch;
use crate::batch::{copy_columns, copy_fields, Batch, BatchView, Field, FieldView};
use crate::dataset;
use crate::dataset::{Dataset, DatasetView};
use crate::import::schema;
use crate::import::schema::infer_type;
use crate::number::Number;
use crate::text;
use crate::value::{copy_numbers, MissingValues, MissingView};
use crate::variable;
use crate::variable::{copy_option, MeasureLevel, ValueLabels, Variable, VariableType, VariableView};

verus! {

broadcast use crate::text::lemma_views_push;

/// What is kept of a variable beside its column.
pub struct VariableMetadata {
    /// The width of a text; a file may lack it.
    pub width: Option<u32>,
    pub label: Option<String>,
    pub value_labels: ValueLabels,
    pub missing_discrete: Vec<Number>,
    pub missing_range: Option<(Number, Number)>,
    pub print_width: u8,
    pub print_decimals: u8,
    pub measure: MeasureLevel,
}

/// What a [`VariableMetadata`] holds.
#[verifier::ext_equal]
pub struct MetadataView {
    pub width: Option<u32>,
    pub label: Option<Seq<char>>,
    pub value_labels: Seq<(i64, Seq<char>)>,
    pub missing_discrete: Seq<Number>,
    pub missing_range: Option<(Number, Number)>,
    pub print_width: u8,
    pub print_decimals: u8,
    pub measure: MeasureLevel,
}

impl View for VariableMetadata {
    type V = MetadataView;

    open spec fn view(&self) -> MetadataView {
        MetadataView {
            width: self.width,
            label: variable::text_option(self.label),
            value_labels: self.value_labels@,
            missing_discrete: self.missing_discrete@,
            missing_range: self.missing_range,
            print_width: self.print_width,
            print_decimals: self.print_decimals,
            measure: self.measure,
        }
    }
}

/// What is kept of a variable.
pub open spec fn metadata_of(var: VariableView) -> MetadataView {
    MetadataView {
        width: match var.var_type {
            VariableType::Numeric => None,
            VariableType::String(w) => Some(w),
        },
        label: var.label,
        value_labels: var.value_labels,
        missing_discrete: var.missing.discrete,
        missing_range: var.missing.range,
        print_width: var.print_width,
        print_decimals: var.print_decimals,
        measure: var.measure,
    }
}

/// The variable of a field that comes with its metadata. Where the width of a text
/// was not kept, it is the display width.
pub open spec fn variable_with(field: FieldView, meta: MetadataView) -> VariableView {
    VariableView {
        name: field.name,
        var_type: if field.kind.textual() {
            VariableType::String(
                match meta.width {
                    Some(w) => w,
                    None => meta.print_width as u32,
                },
            )
        } else {
            VariableType::Numeric
        },
        measure: meta.measure,
        label: meta.label,
        value_labels: meta.value_labels,
        missing: MissingView { discrete: meta.missing_discrete, range: meta.missing_range },
        print_width: meta.print_width,
        print_decimals: meta.print_decimals,
    }
}

/// The variable of a field without metadata.
pub open spec fn default_variable(field: FieldView, batches: Seq<BatchView>) -> VariableView {
    variable::variable_of(
        field.name,
        schema::field_type(
            field,
            if batches.len() > 0 {
                batches[0].fields
            } else {
                Seq::empty()
            },
            batches,
            false,
        ),
    )
}

/// A field holds what a variable says: it has its name, and texts where the
/// variable has texts.
pub open spec fn field_of(field: FieldView, var: VariableView) -> bool {
    field.name == var.name && field.kind.textual() == (var.var_type is String)
}

/// What is kept of a variable gives it back on its field.
pub proof fn law_metadata_returns(field: FieldView, var: VariableView)
    requires
        field_of(field, var),
    ensures
        variable_with(field, metadata_of(var)) == var,
{
    assert(MissingView { discrete: var.missing.discrete, range: var.missing.range }
        =~= var.missing);
}

/// What is written beside the columns of a dataset gives its variables back, each
/// on the field of its column.
pub proof fn law_variables_return(ds: DatasetView)
    requires
        ds.batches.len() > 0,
        ds.batches[0].fields.len() == ds.variables.len(),
        forall|i: int|
            0 <= i < ds.variables.len() ==> field_of(
                #[trigger] ds.batches[0].fields[i],
                ds.variables[i],
            ),
    ensures
        dataset::dataset_of(
            parquet_variables(ds.batches[0].fields, kept_metadata(ds), ds.batches),
            ds.batches,
        ).variables == ds.variables,
        dataset::dataset_of(
            parquet_variables(ds.batches[0].fields, kept_metadata(ds), ds.batches),
            ds.batches,
        ).batches == ds.batches,
{
    let all = parquet_variables(ds.batches[0].fields, kept_metadata(ds), ds.batches);
    assert forall|i: int| 0 <= i < ds.variables.len() implies #[trigger] all[i]
        == ds.variables[i] by {
        law_metadata_returns(ds.batches[0].fields[i], ds.variables[i]);
    }
    assert(all =~= ds.variables);
}

/// The metadata of options.
pub open spec fn metadata_views(v: Seq<Option<VariableMetadata>>) -> Seq<Option<MetadataView>> {
    Seq::new(
        v.len(),
        |i: int|
            match v[i] {
                Some(m) => Some(m@),
                None => None,
            },
    )
}

/// The variables of fields, each with or without metadata.
pub open spec fn parquet_variables(
    fields: Seq<FieldView>,
    metadata: Seq<Option<MetadataView>>,
    batches: Seq<BatchView>,
) -> Seq<VariableView> {
    Seq::new(
        fields.len(),
        |i: int|
            match metadata[i] {
                Some(m) => variable_with(fields[i], m),
                None => default_variable(fields[i], batches),
            },
    )
}

/// Each batch has a column for each field of the first.
pub open spec fn alike(batches: Seq<BatchView>) -> bool {
    batches.len() > 0 ==> schema::covers(batches[0].fields, batches)
}

/// The variable of a field without metadata.
pub fn default_variable_from_field(field: &Field, batches: &Vec<Batch>) -> (r: Variable)
    requires
        alike(text::views(batches@)),
    ensures
        r@ == default_variable(field@, text::views(batches@)),
{
    let ghost bv = text::views(batches@);
    if batches.len() == 0 {
        let none: Vec<Field> = Vec::new();
        proof {
            assert(text::views(none@) =~= Seq::empty());
        }
        return Variable::of_type(field.name.as_str(), infer_type(field, &none, batches, false));
    }
    proof {
        assert(bv[0] == batches@[0]@);
    }
    let t = infer_type(field, &batches[0].fields, batches, false);
    Variable::of_type(field.name.as_str(), t)
}

/// Makes the variable of a field that comes with its metadata.
pub fn variable_from_metadata(field: &Field, meta: VariableMetadata) -> (r: Variable)
    ensures
        r@ == variable_with(field@, meta@),
{
    let ghost mv = meta@;
    let var_type = if field.kind.is_textual() {
        VariableType::String(
            match meta.width {
                Some(w) => w,
                None => meta.print_width as u32,
            },
        )
    } else {
        VariableType::Numeric
    };
    let r = Variable {
        name: field.name.clone(),
        var_type,
        measure: meta.measure,
        label: meta.label,
        value_labels: meta.value_labels,
        missing: MissingValues { discrete: meta.missing_discrete, range: meta.missing_range },
        print_width: meta.print_width,
        print_decimals: meta.print_decimals,
    };
    proof {
        assert(r@ =~= variable_with(field@, mv));
    }
    r
}

/// The dataset of the batches that were read from a Parquet file, with the metadata
/// of its fields where it was found and could be read.
pub fn parquet_dataset(
    fields: &Vec<Field>,
    metadata: Vec<Option<VariableMetadata>>,
    batches: Vec<Batch>,
) -> (r: Dataset)
    requires
        metadata@.len() == fields@.len(),
        alike(text::views(batches@)),
    ensures
        r@ == dataset::dataset_of(
            parquet_variables(
                text::views(fields@),
                metadata_views(metadata@),
                text::views(batches@),
            ),
            text::views(batches@),
        ),
        batch::all_wf(text::views(batches@)) ==> r@.wf(),
{
    let ghost fv = text::views(fields@);
    let ghost mv = metadata_views(metadata@);
    let ghost bv = text::views(batches@);
    let ghost all = parquet_variables(fv, mv, bv);
    let ghost given = metadata@;
    let mut rest = metadata;
    let mut variables: Vec<Variable> = Vec::new();
    let mut i: usize = 0;
    while i < fields.len()
        invariant
            i <= fields@.len(),
            given.len() == fields@.len(),
            rest@.len() == given.len(),
            forall|k: int| i <= k < given.len() ==> #[trigger] rest@[k] == given[k],
            fv == text::views(fields@),
            mv == metadata_views(given),
            bv == text::views(batches@),
            alike(bv),
            all == parquet_variables(fv, mv, bv),
            text::views(variables@) =~= all.take(i as int),
        decreases fields@.len() - i,
    {
        let mut one: Option<VariableMetadata> = None;
        std::mem::swap(&mut one, &mut rest[i]);
        proof {
            assert(one == given[i as int]);
        }
        let var = match one {
            Some(m) => variable_from_metadata(&fields[i], m),
            None => default_variable_from_field(&fields[i], &batches),
        };
        variables.push(var);
        i = i + 1;
    }
    proof {
        assert(all.take(all.len() as int) =~= all);
    }
    Dataset::from_parts(variables, batches)
}

/// What is kept of the variables of the first batch's fields; a field behind the
/// last variable has nothing.
pub open spec fn kept_metadata(ds: DatasetView) -> Seq<Option<MetadataView>> {
    Seq::new(
        ds.batches[0].fields.len(),
        |i: int|
            if i < ds.variables.len() {
                Some(metadata_of(ds.variables[i]))
            } else {
                None
            },
    )
}

/// Why the first of the batches from `i` on cannot be written under the fields of
/// the first.
pub open spec fn write_error(batches: Seq<BatchView>, i: int) -> Option<Seq<char>>
    decreases batches.len() - i,
{
    if i < 0 || i >= batches.len() {
        None
    } else {
        match batch::batch_of(batches[0].fields, batches[i].columns) {
            Ok(_) => write_error(batches, i + 1),
            Err(e) => Some(e),
        }
    }
}

/// Copies what is kept of a variable.
fn keep_metadata(var: &Variable) -> (r: VariableMetadata)
    ensures
        r@ == metadata_of(var@),
{
    VariableMetadata {
        width: match var.var_type {
            VariableType::Numeric => None,
            VariableType::String(w) => Some(w),
        },
        label: copy_option(&var.label),
        value_labels: var.value_labels.clone(),
        missing_discrete: copy_numbers(&var.missing.discrete),
        missing_range: var.missing.range,
        print_width: var.print_width,
        print_decimals: var.print_decimals,
        measure: var.measure,
    }
}

/// What to write beside the columns of each field of the first batch: all batches
/// are written under its fields.
pub fn parquet_metadata(dataset: &Dataset) -> (r: Result<Vec<Option<VariableMetadata>>, String>)
    ensures
        match r {
            Ok(v) => dataset@.batches.len() > 0 && write_error(dataset@.batches, 0) is None
                && metadata_views(v@) == kept_metadata(dataset@),
            Err(e) => if dataset@.batches.len() == 0 {
                e@ == "Dataset has no record batches"@
            } else {
                write_error(dataset@.batches, 0) == Some(e@)
            },
        },
{
    if dataset.batches.len() == 0 {
        return Err("Dataset has no record batches".to_owned());
    }
    let ghost ds = dataset@;
    let ghost all = kept_metadata(ds);
    proof {
        assert(ds.batches[0] == dataset.batches@[0]@);
    }
    let n = dataset.batches[0].fields.len();
    let mut out: Vec<Option<VariableMetadata>> = Vec::new();
    let mut i: usize = 0;
    while i < n
        invariant
            i <= n,
            ds == dataset@,
            ds.batches.len() > 0,
            n == ds.batches[0].fields.len(),
            all == kept_metadata(ds),
            metadata_views(out@) =~= all.take(i as int),
        decreases n - i,
    {
        let ghost before = out@;
        let one = if i < dataset.variables.len() {
            Some(keep_metadata(&dataset.variables[i]))
        } else {
            None
        };
        out.push(one);
        proof {
            assert(metadata_views(out@) =~= metadata_views(before).push(all[i as int]));
        }
        i = i + 1;
    }
    let mut b: usize = 0;
    while b < dataset.batches.len()
        invariant
            b <= dataset.batches@.len(),
            ds == dataset@,
            ds.batches.len() > 0,
            write_error(ds.batches, 0) == write_error(ds.batches, b as int),
        decreases dataset.batches@.len() - b,
    {
        proof {
            assert(ds.batches[b as int] == dataset.batches@[b as int]@);
            assert(ds.batches[0] == dataset.batches@[0]@);
        }
        let fields = copy_fields(&dataset.batches[0].fields);
        let columns = copy_columns(&dataset.batches[b].columns);
        if let Err(e) = Batch::try_new(fields, columns) {
            return Err(e);
        }
        b = b + 1;
    }
    proof {
        assert(all.take(all.len() as int) =~= all);
    }
    Ok(out)
}

} // verus!
