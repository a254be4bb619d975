//! A column designator: either a positional index or a header name.

use vstd::prelude::*;

verus! {

/// Names a column either by its position or by its header string.
#[derive(Debug, PartialEq)]
pub enum IndexOrColumn {
    Column(String),
    Index(usize),
}

impl From<String> for IndexOrColumn {
    fn from(s: String) -> (r: IndexOrColumn)
        ensures
            r == IndexOrColumn::Column(s),
    {
        IndexOrColumn::Column(s)
    }
}

impl vstd::std_specs::convert::FromSpecImpl<String> for IndexOrColumn {
    open spec fn obeys_from_spec() -> bool {
        true
    }

    open spec fn from_spec(s: String) -> IndexOrColumn {
        IndexOrColumn::Column(s)
    }
}

impl From<usize> for IndexOrColumn {
    fn from(s: usize) -> (r: IndexOrColumn)
        ensures
            r == IndexOrColumn::Index(s),
    {
        IndexOrColumn::Index(s)
    }
}

impl vstd::std_specs::convert::FromSpecImpl<usize> for IndexOrColumn {
    open spec fn obeys_from_spec() -> bool {
        true
    }

    open spec fn from_spec(s: usize) -> IndexOrColumn {
        IndexOrColumn::Index(s)
    }
}

impl<'a> From<&'a str> for IndexOrColumn {
    fn from(s: &'a str) -> (r: IndexOrColumn)
        ensures
            r matches IndexOrColumn::Column(c) && c@ == s@,
    {
        IndexOrColumn::Column(s.to_owned())
    }
}

impl<'a> vstd::std_specs::convert::FromSpecImpl<&'a str> for IndexOrColumn {
    open spec fn obeys_from_spec() -> bool {
        false
    }

    open spec fn from_spec(s: &'a str) -> IndexOrColumn {
        arbitrary()
    }
}

} // verus!
