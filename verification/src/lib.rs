//! Name resolution and scope analysis over a SQL syntax tree.
//!
//! The resolver walks a statement, opens a scope for every nested query,
//! derived table, CTE and set-operation branch, and records for each scope
//! its sources, its selected columns with their dependency sets, and the
//! columns it uses in joins, filters, grouping and sorting.
pub mod ast;
pub mod resolve;
pub mod schema;
