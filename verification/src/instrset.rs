//! Names that instruction-set rules treat specially.
use vstd::prelude::*;
use crate::text::str_eq;

verus! {

/// Whether `name` is reserved in rule expressions: only `pc`, the
/// address of the instruction, is.
pub fn is_reserved_var(name: &str) -> (r: bool)
    ensures
        r == (name@ == "pc"@),
{
    str_eq(name, "pc")
}

} // verus!
