//! Rows of the type-information table: static lookup data correlating type
//! names with their identifiers. The table itself is loaded at runtime as
//! plain data, never regenerated as code.

use vstd::prelude::*;

verus! {

/// One row of the type-information table.
#[derive(Debug)]
pub struct TypeInfoEntry {
    pub typekind: String,
    pub ktid: String,
    pub typename: String,
}

} // verus!
