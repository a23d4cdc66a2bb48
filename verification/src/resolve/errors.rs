use vstd::prelude::*;

verus! {

/// Why a statement could not be resolved.
#[derive(Debug)]
pub enum ResolutionError {
    /// The statement is not a query; holds the name of the statement type.
    UnsupportedQueryType(String),
    /// A FROM-clause item of a kind that is not handled; holds its kind.
    UnsupportedTableFactor(String),
    /// A table name that is neither a visible CTE nor known to the schema
    /// provider; holds the name's parts.
    TableNotFound(Vec<String>),
    /// A column reference that no visible source provides; holds the column.
    ColumnNotFound(String),
    /// A column reference that two sources of one scope both provide.
    AmbiguousColumn(String),
    /// A qualified wildcard `q.*` whose qualifier names no source of the scope.
    SourceNotFound(Vec<String>),
}

} // verus!
