//! Errors of the query engine, gathered into one type that carries a message.
use vstd::prelude::*;
use vstd::string::StringExecFns;

verus! {

/// The error type of the `datafusion` crate.
#[verifier::external_type_specification]
#[verifier::external_body]
pub struct ExExecutionError(datafusion::error::DataFusionError);

/// The error type of the `arrow` crate.
#[verifier::external_type_specification]
#[verifier::external_body]
pub struct ExArrowError(arrow::error::ArrowError);

/// What went wrong in a query: an error of the query engine, an error of
/// the array library under it, or a plain message.
#[derive(Debug)]
pub enum QueryError {
    ExecutionError(datafusion::error::DataFusionError),
    ArrowError(arrow::error::ArrowError),
    Common(String),
}

/// Formats a query-engine error with the `Debug` impl of
/// `datafusion::error::DataFusionError`. Nothing is claimed of the text.
#[verifier::external_body]
fn execution_error_text(e: &datafusion::error::DataFusionError) -> (text: String) {
    format!("{:?}", e)
}

/// Formats an array-library error with the `Debug` impl of
/// `arrow::error::ArrowError`. Nothing is claimed of the text.
#[verifier::external_body]
fn arrow_error_text(e: &arrow::error::ArrowError) -> (text: String) {
    format!("{:?}", e)
}

impl QueryError {
    /// The message of this error: a plain message as it is, an outside
    /// error's own description behind a prefix that names its origin.
    pub fn message(&self) -> (text: String)
        ensures
            self matches QueryError::Common(e) ==> text@ == e@,
            self is ExecutionError ==> "DataFusion error: "@.is_prefix_of(text@),
            self is ArrowError ==> "Arrow error: "@.is_prefix_of(text@),
    {
        match self {
            QueryError::ExecutionError(e) => {
                let tail = execution_error_text(e);
                let text = String::from_str("DataFusion error: ").concat(tail.as_str());
                assert(text@.subrange(0, "DataFusion error: "@.len() as int)
                    =~= "DataFusion error: "@);
                text
            },
            QueryError::ArrowError(e) => {
                let tail = arrow_error_text(e);
                let text = String::from_str("Arrow error: ").concat(tail.as_str());
                assert(text@.subrange(0, "Arrow error: "@.len() as int) =~= "Arrow error: "@);
                text
            },
            QueryError::Common(e) => e.clone(),
        }
    }
}

impl From<datafusion::error::DataFusionError> for QueryError {
    fn from(err: datafusion::error::DataFusionError) -> (r: QueryError) {
        QueryError::ExecutionError(err)
    }
}

impl vstd::std_specs::convert::FromSpecImpl<datafusion::error::DataFusionError> for QueryError {
    open spec fn obeys_from_spec() -> bool {
        true
    }

    open spec fn from_spec(err: datafusion::error::DataFusionError) -> QueryError {
        QueryError::ExecutionError(err)
    }
}

impl From<arrow::error::ArrowError> for QueryError {
    fn from(err: arrow::error::ArrowError) -> (r: QueryError) {
        QueryError::ArrowError(err)
    }
}

impl vstd::std_specs::convert::FromSpecImpl<arrow::error::ArrowError> for QueryError {
    open spec fn obeys_from_spec() -> bool {
        true
    }

    open spec fn from_spec(err: arrow::error::ArrowError) -> QueryError {
        QueryError::ArrowError(err)
    }
}

/// Carries the result of a query over: a value stays as it is, an error of
/// the query engine becomes a `QueryError::ExecutionError`.
pub fn wrap<T>(a: Result<T, datafusion::error::DataFusionError>) -> (r: Result<T, QueryError>)
    ensures
        a matches Ok(v) ==> r == Ok::<T, QueryError>(v),
        a matches Err(e) ==> r == Err::<T, QueryError>(QueryError::ExecutionError(e)),
{
    match a {
        Ok(v) => Ok(v),
        Err(e) => Err(QueryError::from(e)),
    }
}

} // verus!
