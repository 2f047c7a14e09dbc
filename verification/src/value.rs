//! Cell values and user-defined missing values.
use vstd::prelude::*;

use crate::number::Number;

verus! {

/// A cell value that may be missing.
#[derive(Debug)]
pub enum Value {
    Numeric(Number),
    String(String),
    /// System-missing (equivalent to SPSS SYSMIS).
    SystemMissing,
}

/// What a [`Value`] holds.
#[verifier::ext_equal]
pub enum ValueView {
    Numeric(Number),
    String(Seq<char>),
    SystemMissing,
}

impl View for Value {
    type V = ValueView;

    open spec fn view(&self) -> ValueView {
        match self {
            Value::Numeric(n) => ValueView::Numeric(*n),
            Value::String(s) => ValueView::String(s@),
            Value::SystemMissing => ValueView::SystemMissing,
        }
    }
}

impl Clone for Value {
    fn clone(&self) -> (r: Self)
        ensures
            r@ == self@,
    {
        match self {
            Value::Numeric(n) => Value::Numeric(*n),
            Value::String(s) => Value::String(s.clone()),
            Value::SystemMissing => Value::SystemMissing,
        }
    }
}

impl PartialEq for Value {
    fn eq(&self, other: &Self) -> (r: bool) {
        match (self, other) {
            (Value::Numeric(a), Value::Numeric(b)) => a.is_equal(b),
            (Value::String(a), Value::String(b)) => *a == *b,
            (Value::SystemMissing, Value::SystemMissing) => true,
            _ => false,
        }
    }
}

impl vstd::std_specs::cmp::PartialEqSpecImpl for Value {
    open spec fn obeys_eq_spec() -> bool {
        true
    }

    open spec fn eq_spec(&self, other: &Self) -> bool {
        match (self, other) {
            (Value::Numeric(a), Value::Numeric(b)) => a.equals(*b),
            (Value::String(a), Value::String(b)) => a@ == b@,
            (Value::SystemMissing, Value::SystemMissing) => true,
            _ => false,
        }
    }
}

impl Value {
    /// Whether the value is system-missing.
    pub fn is_missing(&self) -> (r: bool)
        ensures
            r == (self@ is SystemMissing),
    {
        matches!(self, Value::SystemMissing)
    }

    /// The number, where the value is one.
    pub fn as_f64(&self) -> (r: Option<Number>)
        ensures
            r == match self@ {
                ValueView::Numeric(n) => Some(n),
                _ => None,
            },
    {
        match self {
            Value::Numeric(v) => Some(*v),
            _ => None,
        }
    }
}

/// The user-defined missing values of a variable.
/// SPSS allows up to 3 discrete values or a range + 1 discrete.
#[derive(Debug)]
pub struct MissingValues {
    /// Discrete missing values (up to 3).
    pub discrete: Vec<Number>,
    /// Range-based missing: (low, high) inclusive.
    pub range: Option<(Number, Number)>,
}

/// What a [`MissingValues`] holds.
#[verifier::ext_equal]
pub struct MissingView {
    pub discrete: Seq<Number>,
    pub range: Option<(Number, Number)>,
}

impl View for MissingValues {
    type V = MissingView;

    open spec fn view(&self) -> MissingView {
        MissingView { discrete: self.discrete@, range: self.range }
    }
}

impl MissingView {
    /// No missing values.
    pub open spec fn none() -> MissingView {
        MissingView { discrete: Seq::empty(), range: None }
    }

    /// A number is user-missing when it equals a discrete value or lies in the range.
    pub open spec fn holds(self, n: Number) -> bool {
        ||| exists|i: int| 0 <= i < self.discrete.len() && (#[trigger] self.discrete[i]).equals(n)
        ||| (self.range matches Some((lo, hi)) && lo.at_most(n) && n.at_most(hi))
    }
}

impl Clone for MissingValues {
    fn clone(&self) -> (r: Self)
        ensures
            r@ == self@,
    {
        let discrete = copy_numbers(&self.discrete);
        MissingValues { discrete, range: self.range }
    }
}

impl Default for MissingValues {
    fn default() -> (r: Self)
        ensures
            r@ == MissingView::none(),
    {
        MissingValues { discrete: Vec::new(), range: None }
    }
}

/// A copy of a list of numbers.
pub fn copy_numbers(v: &Vec<Number>) -> (r: Vec<Number>)
    ensures
        r@ == v@,
{
    let mut out: Vec<Number> = Vec::new();
    let mut i: usize = 0;
    while i < v.len()
        invariant
            i <= v.len(),
            out@ == v@.take(i as int),
        decreases v.len() - i,
    {
        out.push(v[i]);
        proof {
            assert(v@.take(i + 1) =~= v@.take(i as int).push(v@[i as int]));
        }
        i = i + 1;
    }
    proof {
        assert(v@.take(v@.len() as int) =~= v@);
    }
    out
}

impl MissingValues {
    /// Whether a number is declared missing.
    pub fn is_user_missing(&self, val: Number) -> (r: bool)
        ensures
            r == self@.holds(val),
    {
        let mut i: usize = 0;
        while i < self.discrete.len()
            invariant
                i <= self.discrete.len(),
                forall|j: int| 0 <= j < i ==> !(#[trigger] self.discrete@[j]).equals(val),
            decreases self.discrete.len() - i,
        {
            if self.discrete[i].is_equal(&val) {
                proof {
                    assert(self@.discrete[i as int].equals(val));
                }
                return true;
            }
            i = i + 1;
        }
        if let Some((lo, hi)) = self.range {
            if lo.is_at_most(&val) && val.is_at_most(&hi) {
                return true;
            }
        }
        false
    }
}

} // verus!
