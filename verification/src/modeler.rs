//! Plain descriptions of variables: a name and, for integer and continuous
//! variables, optional integer bounds.

use vstd::prelude::*;

verus! {

/// The categories of variables.
#[derive(Debug, Clone, Copy, PartialEq, Eq, Structural)]
pub enum LpVariable {
    BinaryVariable,
    IntegerVariable,
    ContinuousVariable,
}

/// A binary variable.
#[derive(Debug)]
pub struct BinaryVariable {
    name: String,
}

/// An integer variable with optional bounds.
#[derive(Debug)]
pub struct IntegerVariable {
    name: String,
    lower_bound: Option<i32>,
    upper_bound: Option<i32>,
}

/// A continuous variable with optional bounds.
#[derive(Debug)]
pub struct ContinuousVariable {
    name: String,
    lower_bound: Option<i32>,
    upper_bound: Option<i32>,
}

impl View for BinaryVariable {
    type V = Seq<char>;

    closed spec fn view(&self) -> Seq<char> {
        self.name@
    }
}

impl View for IntegerVariable {
    type V = (Seq<char>, Option<i32>, Option<i32>);

    closed spec fn view(&self) -> (Seq<char>, Option<i32>, Option<i32>) {
        (self.name@, self.lower_bound, self.upper_bound)
    }
}

impl View for ContinuousVariable {
    type V = (Seq<char>, Option<i32>, Option<i32>);

    closed spec fn view(&self) -> (Seq<char>, Option<i32>, Option<i32>) {
        (self.name@, self.lower_bound, self.upper_bound)
    }
}

impl BinaryVariable {
    /// The binary variable `name`.
    pub fn new(name: &str) -> (r: BinaryVariable)
        ensures
            r@ == name@,
    {
        BinaryVariable { name: name.to_owned() }
    }
}

impl IntegerVariable {
    /// The integer variable `name` with the given bounds.
    pub fn new(name: &str, lower_bound: Option<i32>, upper_bound: Option<i32>) -> (r: IntegerVariable)
        ensures
            r@ == (name@, lower_bound, upper_bound),
    {
        IntegerVariable { name: name.to_owned(), lower_bound, upper_bound }
    }
}

impl ContinuousVariable {
    /// The continuous variable `name` with the given bounds.
    pub fn new(name: &str, lower_bound: Option<i32>, upper_bound: Option<i32>) -> (r: ContinuousVariable)
        ensures
            r@ == (name@, lower_bound, upper_bound),
    {
        ContinuousVariable { name: name.to_owned(), lower_bound, upper_bound }
    }
}

} // verus!
