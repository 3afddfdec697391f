//! Errors of the kernels.
use crate::data_type::DataType;
use arrow::error::ArrowError;
use vstd::prelude::*;

verus! {

/// Why a kernel did not produce a result.
#[derive(Debug)]
pub enum ExecError {
    /// Direct addressing does not support the group columns of this schema.
    UnsupportedGroupSchema,
    /// Grouping needs two columns with equally many rows.
    MismatchedGroupColumns,
    /// The group numbers of this many rows could not be allocated.
    GroupReservation { rows: usize },
    /// The memory that compacting a dictionary needs does not fit the type.
    CompactionSize,
    /// A function got another number of arguments than it takes.
    ArgumentCount { expected: usize, actual: usize },
    /// A function got an argument of this type in place of a list.
    ExpectedList { data_type: DataType },
    /// A function takes a value and then a lambda, and got them otherwise.
    ExpectedValueThenLambda,
    /// A predicate returned this type in place of a boolean.
    LambdaNotBoolean { data_type: DataType },
    /// A state does not have as many bytes as there are registers.
    InvalidRegisters,
    /// A state is null.
    MissingRegisters,
    /// An accumulator got a column of another type than it counts.
    UnexpectedColumn,
    /// A count is of another type than the counter gives.
    UnexpectedCount,
    /// Exact counting of small integers does not support this type.
    UnsupportedSmallInt { data_type: DataType },
    /// The function is not implemented for this type.
    NotImplemented { data_type: DataType },
    /// A call into `arrow` failed.
    Arrow(ArrowError),
}

} // verus!
