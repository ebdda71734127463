//! What goes wrong in expressions.
use crate::manager::objects::DataType;
use vstd::prelude::*;
use vstd::std_specs::convert::FromSpecImpl;

verus! {

/// Something that an expression needs is not there.
#[derive(Clone, Copy, Debug)]
pub struct ContextUnavailable(pub &'static str);

impl ContextUnavailable {
    /// The given thing is not there.
    pub fn new(field: &'static str) -> (res: ContextUnavailable)
        ensures
            res.0 == field,
    {
        ContextUnavailable(field)
    }
}

/// What goes wrong in an expression.
#[derive(Debug)]
pub enum ExprError {
    /// Several errors of one evaluation.
    Multiple(MultiExprError),
    UnsupportedFunction(String),
    UnsupportedCast(DataType, DataType),
    CastOutOfRange(&'static str),
    NumericOutOfRange,
    NumericUnderflow,
    NumericOverflow,
    DivisionByZero,
    Parse(String),
    InvalidParam { name: &'static str, reason: String },
    Array(String),
    MaxOneRow(&'static str),
    Internal(String),
    NotConstant,
    /// Something that the expression needs is not there.
    Context(&'static str),
    FieldNameNull,
    TooFewArguments,
    InvalidState(String),
    /// What a user-defined function returned.
    Custom(String),
    /// What a function returned.
    Function(String),
}

impl From<ContextUnavailable> for ExprError {
    fn from(e: ContextUnavailable) -> (res: ExprError) {
        ExprError::Context(e.0)
    }
}

impl FromSpecImpl<ContextUnavailable> for ExprError {
    open spec fn obeys_from_spec() -> bool {
        true
    }

    open spec fn from_spec(e: ContextUnavailable) -> ExprError {
        ExprError::Context(e.0)
    }
}

/// Several errors of one evaluation.
#[derive(Debug)]
pub struct MultiExprError {
    pub errors: Vec<ExprError>,
}

impl From<Vec<ExprError>> for MultiExprError {
    fn from(v: Vec<ExprError>) -> (res: MultiExprError) {
        MultiExprError { errors: v }
    }
}

impl FromSpecImpl<Vec<ExprError>> for MultiExprError {
    open spec fn obeys_from_spec() -> bool {
        true
    }

    open spec fn from_spec(v: Vec<ExprError>) -> MultiExprError {
        MultiExprError { errors: v }
    }
}

impl MultiExprError {
    /// The first error.
    pub fn into_first(self) -> (res: ExprError)
        requires
            self.errors@.len() > 0,
        ensures
            res == self.errors@[0],
    {
        let mut errors = self.errors;
        errors.remove(0)
    }

    /// All errors in order.
    pub fn into_errors(self) -> (res: Vec<ExprError>)
        ensures
            res == self.errors,
    {
        self.errors
    }
}

} // verus!
