//! The ways in which a run fails.

use vstd::prelude::*;
use vstd::string::*;

verus! {

/// Why a table could not be processed.
#[derive(Debug, PartialEq, Eq)]
pub enum CsvError {
    /// The input has no line at all, so there is no header.
    NoHeaders,
    /// A selected column, or the column of a filter, is not named in the
    /// header. The name is carried along.
    HeaderNotFound(String),
    /// A row is too short to have a field in the named column, and that
    /// field had to be read.
    FieldNotFound(String),
}

/// What a `CsvError` says.
pub ghost enum Failure {
    NoHeaders,
    HeaderNotFound(Seq<char>),
    FieldNotFound(Seq<char>),
}

impl View for CsvError {
    type V = Failure;

    open spec fn view(&self) -> Failure {
        match self {
            CsvError::NoHeaders => Failure::NoHeaders,
            CsvError::HeaderNotFound(name) => Failure::HeaderNotFound(name@),
            CsvError::FieldNotFound(name) => Failure::FieldNotFound(name@),
        }
    }
}

impl Failure {
    /// The diagnostic for a failure.
    pub open spec fn message(self) -> Seq<char> {
        match self {
            Failure::NoHeaders => "Invalid CSV: no headers found"@,
            Failure::HeaderNotFound(name) => "Header '"@ + name + "' not found in CSV file/string"@,
            Failure::FieldNotFound(name) => "Row has no field for header '"@ + name + "'"@,
        }
    }
}

impl CsvError {
    /// The diagnostic for the error, as a line of text.
    pub fn message(&self) -> (text: String)
        ensures
            text@ == self@.message(),
    {
        match self {
            CsvError::NoHeaders => String::from_str("Invalid CSV: no headers found"),
            CsvError::HeaderNotFound(name) => {
                let mut text = String::from_str("Header '");
                text.append(name.as_str());
                text.append("' not found in CSV file/string");
                text
            },
            CsvError::FieldNotFound(name) => {
                let mut text = String::from_str("Row has no field for header '");
                text.append(name.as_str());
                text.append("'");
                text
            },
        }
    }
}

/// What a result says: the text of a success, or the failure.
pub open spec fn outcome<T: View>(r: Result<T, CsvError>) -> Result<T::V, Failure> {
    match r {
        Ok(value) => Ok(value@),
        Err(e) => Err(e@),
    }
}

} // verus!
