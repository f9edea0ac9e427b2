//! Plain data carriers for parsed results.

use vstd::prelude::*;

verus! {

/// Conveys information about a C/C++ variable as two strings: one for the
/// type and one for the name.
pub struct C_Declaration {
    pub typename: String,
    pub name: String,
}

/// Conveys information about a C/C++ struct: its name and its fields, each
/// field represented as a `C_Declaration`.
pub struct C_Struct {
    pub name: String,
    pub fields: Vec<C_Declaration>,
}

} // verus!
