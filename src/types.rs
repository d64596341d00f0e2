//! The SQL data types that values of the query layer are drawn from.
use vstd::prelude::*;

verus! {

/// A datatype
#[derive(Clone, Copy, Debug, Hash, PartialEq, Eq, Structural)]
pub enum DataType {
    Boolean,
    Integer,
    Float,
    String,
}

} // verus!
