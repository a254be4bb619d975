//! Error types for table construction and for reading tables from
//! external row sources.

use vstd::prelude::*;

verus! {

/// Error returned when a table cannot be built or a column operation is
/// given bad input; carries a human-readable reason.
#[derive(Debug)]
pub struct TableError {
    description: String,
}

impl TableError {
    /// The reason carried by this error.
    pub closed spec fn message(&self) -> Seq<char> {
        self.description@
    }

    pub fn new(s: &str) -> (r: TableError)
        ensures
            r.message() == s@,
    {
        TableError { description: s.to_owned() }
    }

    /// Read the reason back out.
    pub fn description(&self) -> (r: &str)
        ensures
            r@ == self.message(),
    {
        self.description.as_str()
    }
}

/// Error returned when rows read from an external source cannot be
/// turned into a table.
#[derive(Debug)]
pub struct TableReadError(String);

impl TableReadError {
    /// The reason carried by this error.
    pub closed spec fn message(&self) -> Seq<char> {
        self.0@
    }

    pub fn new(s: &str) -> (r: TableReadError)
        ensures
            r.message() == s@,
    {
        TableReadError(s.to_owned())
    }

    /// Read the reason back out.
    pub fn description(&self) -> (r: &str)
        ensures
            r@ == self.message(),
    {
        self.0.as_str()
    }
}

impl From<TableError> for TableReadError {
    fn from(err: TableError) -> (r: TableReadError)
        ensures
            r.message() == err.message(),
    {
        TableReadError(err.description)
    }
}

impl vstd::std_specs::convert::FromSpecImpl<TableError> for TableReadError {
    open spec fn obeys_from_spec() -> bool {
        true
    }

    closed spec fn from_spec(err: TableError) -> TableReadError {
        TableReadError(err.description)
    }
}

} // verus!
