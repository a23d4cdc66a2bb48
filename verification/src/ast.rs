//! The syntax tree that the resolver reads.
//!
//! It keeps, of a parsed SQL statement, what name resolution looks at:
//! the query structure (CTEs, set operations, SELECT blocks, FROM clauses,
//! joins) and, inside expressions, column references, nested subqueries,
//! function calls with their window specifications, and every other operand
//! in the order in which resolution visits it.
use vstd::prelude::*;

verus! {

/// A SQL statement.
pub enum Statement {
    /// A query (`SELECT ...`, `WITH ... SELECT ...`, set operations).
    Query(Box<Query>),
    /// Any other statement, named by its kind (`Insert`, `CreateTable`, ...).
    Other(String),
}

/// A query: optional CTEs, a body and an optional ORDER BY list.
pub struct Query {
    pub with: Vec<Cte>,
    pub body: Box<SetExpr>,
    pub order_by: Vec<Expr>,
}

/// One common table expression `alias AS (query)`.
pub struct Cte {
    pub alias: String,
    pub query: Box<Query>,
}

/// The body of a query.
pub enum SetExpr {
    Select(Box<Select>),
    /// A parenthesised query.
    Query(Box<Query>),
    /// `left UNION/INTERSECT/EXCEPT right`.
    SetOperation { left: Box<SetExpr>, right: Box<SetExpr> },
}

/// A SELECT block.
pub struct Select {
    pub projection: Vec<SelectItem>,
    pub from: Vec<TableWithJoins>,
    pub selection: Option<Expr>,
    pub group_by: Vec<Expr>,
    pub having: Option<Expr>,
}

/// One item of a SELECT list.
pub enum SelectItem {
    UnnamedExpr(Expr),
    ExprWithAlias { expr: Expr, alias: String },
    /// `*`
    Wildcard,
    /// `t.*`, holding the qualifier parts.
    QualifiedWildcard(Vec<String>),
}

/// One item of a FROM list with the joins that follow it.
pub struct TableWithJoins {
    pub relation: TableFactor,
    pub joins: Vec<Join>,
}

/// A join with its `ON` condition, where it has one.
pub struct Join {
    pub relation: TableFactor,
    pub on: Option<Expr>,
}

/// A FROM-clause item.
pub enum TableFactor {
    /// A base table or a CTE reference.
    Table { name: Vec<String>, alias: Option<String> },
    /// A parenthesised query, possibly `LATERAL`.
    Derived { lateral: bool, subquery: Box<Query>, alias: Option<String> },
    /// A table-valued function call (`f(...)`, `TABLE(...)`, `UNNEST(...)`)
    /// with its argument expressions and the column names its alias lists.
    Function { name: Vec<String>, args: Vec<Expr>, alias: Option<String>, columns: Vec<String> },
    /// `table PIVOT (...)` or `table UNPIVOT (...)`: the table it reshapes
    /// and the expressions of the clause that read that table's columns.
    Pivot { table: Box<TableFactor>, exprs: Vec<Expr> },
    /// A table factor kind that resolution does not handle, named by its kind.
    Unsupported(String),
}

/// An expression.
pub enum Expr {
    /// An unqualified column name.
    Identifier(String),
    /// A qualified column name `q1. ... .qn.name`.
    CompoundIdentifier { qualifier: Vec<String>, name: String },
    /// A literal or any other expression without nested expressions
    /// that resolution visits.
    Value(String),
    /// A scalar subquery.
    Subquery(Box<Query>),
    /// `expr [NOT] IN (subquery)`.
    InSubquery { expr: Box<Expr>, subquery: Box<Query> },
    /// `[NOT] EXISTS (subquery)`.
    Exists(Box<Query>),
    /// A function call.
    Function(Function),
    /// Any other expression: an operator or construct `op` applied to
    /// operands, listed in the order in which resolution visits them.
    Composite { op: String, operands: Vec<Expr> },
}

/// A function call with its arguments and the expressions of its window
/// specification (`PARTITION BY` then `ORDER BY`), if any.
pub struct Function {
    pub name: Vec<String>,
    pub args: Vec<Expr>,
    pub over: Vec<Expr>,
}

} // verus!
