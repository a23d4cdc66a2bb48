//! The errors that resolving a syntax tree can end in: each one names a part
//! of the tree that it is about.
use vstd::prelude::*;

use crate::ast::{Cte, Expr, Join, Query, Select, SelectItem, SetExpr, TableFactor, TableWithJoins};
use crate::resolve::column::strings_view;
use crate::resolve::errors::ResolutionError;

verus! {

/// `err` is about the column reference named `name`: it was found nowhere,
/// or in two sources of one scope.
pub open spec fn column_error(err: ResolutionError, name: Seq<char>) -> bool {
    ||| (err matches ResolutionError::ColumnNotFound(c) && c@ == name)
    ||| (err matches ResolutionError::AmbiguousColumn(c) && c@ == name)
}

/// `err` is an error that resolving expression `e` can end in: about one of
/// its column references, or one that a nested query can end in.
pub open spec fn expr_can_fail(e: Expr, err: ResolutionError) -> bool
    decreases e,
{
    match e {
        Expr::Identifier(name) => column_error(err, name@),
        Expr::CompoundIdentifier { qualifier, name } => column_error(err, name@),
        Expr::Value(_) => false,
        Expr::Subquery(q) => query_can_fail(*q, err),
        Expr::InSubquery { expr, subquery } => expr_can_fail(*expr, err) || query_can_fail(*subquery, err),
        Expr::Exists(q) => query_can_fail(*q, err),
        Expr::Function(f) => exprs_can_fail(f.args@, err) || exprs_can_fail(f.over@, err),
        Expr::Composite { op, operands } => exprs_can_fail(operands@, err),
    }
}

/// `err` is an error that resolving one of the expressions `es` can end in.
pub open spec fn exprs_can_fail(es: Seq<Expr>, err: ResolutionError) -> bool
    decreases es,
{
    es.len() > 0 && (exprs_can_fail(es.drop_last(), err) || expr_can_fail(es.last(), err))
}

/// `err` is an error that resolving an optional expression can end in.
pub open spec fn opt_expr_can_fail(e: Option<Expr>, err: ResolutionError) -> bool
    decreases e,
{
    match e {
        Some(x) => expr_can_fail(x, err),
        None => false,
    }
}

/// `err` is an error that resolving query `q` can end in: one of its CTEs,
/// its body or its ORDER BY list.
pub open spec fn query_can_fail(q: Query, err: ResolutionError) -> bool
    decreases q,
{
    ctes_can_fail(q.with@, err) || set_expr_can_fail(*q.body, err) || exprs_can_fail(q.order_by@, err)
}

/// `err` is an error that resolving the query of one of the CTEs `cs` can
/// end in.
pub open spec fn ctes_can_fail(cs: Seq<Cte>, err: ResolutionError) -> bool
    decreases cs,
{
    cs.len() > 0 && (ctes_can_fail(cs.drop_last(), err) || query_can_fail(*cs.last().query, err))
}

/// `err` is an error that resolving query body `b` can end in.
pub open spec fn set_expr_can_fail(b: SetExpr, err: ResolutionError) -> bool
    decreases b,
{
    match b {
        SetExpr::Select(s) => select_can_fail(*s, err),
        SetExpr::Query(q) => query_can_fail(*q, err),
        SetExpr::SetOperation { left, right } => set_expr_can_fail(*left, err) || set_expr_can_fail(
            *right,
            err,
        ),
    }
}

/// `err` is an error that resolving SELECT block `s` can end in.
pub open spec fn select_can_fail(s: Select, err: ResolutionError) -> bool
    decreases s,
{
    ||| from_can_fail(s.from@, err)
    ||| items_can_fail(s.projection@, err)
    ||| opt_expr_can_fail(s.selection, err)
    ||| exprs_can_fail(s.group_by@, err)
    ||| opt_expr_can_fail(s.having, err)
}

/// `err` is an error that resolving one of the SELECT items can end in.
pub open spec fn items_can_fail(items: Seq<SelectItem>, err: ResolutionError) -> bool
    decreases items,
{
    items.len() > 0 && (items_can_fail(items.drop_last(), err) || item_can_fail(items.last(), err))
}

/// `err` is an error that resolving SELECT item `item` can end in: one of
/// its expression, or, for a qualified wildcard, that its qualifier names no
/// source.
pub open spec fn item_can_fail(item: SelectItem, err: ResolutionError) -> bool
    decreases item,
{
    match item {
        SelectItem::UnnamedExpr(e) => expr_can_fail(e, err),
        SelectItem::ExprWithAlias { expr, alias } => expr_can_fail(expr, err),
        SelectItem::Wildcard => false,
        SelectItem::QualifiedWildcard(q) => err matches ResolutionError::SourceNotFound(n) && strings_view(
            n@,
        ) == strings_view(q@),
    }
}

/// `err` is an error that resolving one of the FROM items can end in.
pub open spec fn from_can_fail(ts: Seq<TableWithJoins>, err: ResolutionError) -> bool
    decreases ts,
{
    ts.len() > 0 && (from_can_fail(ts.drop_last(), err) || table_with_joins_can_fail(ts.last(), err))
}

/// `err` is an error that resolving a FROM item or one of its joins can end in.
pub open spec fn table_with_joins_can_fail(t: TableWithJoins, err: ResolutionError) -> bool
    decreases t,
{
    factor_can_fail(t.relation, err) || joins_can_fail(t.joins@, err)
}

/// `err` is an error that resolving one of the joins can end in.
pub open spec fn joins_can_fail(js: Seq<Join>, err: ResolutionError) -> bool
    decreases js,
{
    js.len() > 0 && (joins_can_fail(js.drop_last(), err) || join_can_fail(js.last(), err))
}

/// `err` is an error that resolving a join's table factor or condition can
/// end in.
pub open spec fn join_can_fail(j: Join, err: ResolutionError) -> bool
    decreases j,
{
    factor_can_fail(j.relation, err) || opt_expr_can_fail(j.on, err)
}

/// `err` is an error that resolving FROM-clause item `f` can end in: that a
/// table's name is not known, that its kind is not supported, or one of its
/// nested queries and expressions.
pub open spec fn factor_can_fail(f: TableFactor, err: ResolutionError) -> bool
    decreases f,
{
    match f {
        TableFactor::Table { name, alias } => err matches ResolutionError::TableNotFound(n) && strings_view(
            n@,
        ) == strings_view(name@),
        TableFactor::Derived { lateral, subquery, alias } => query_can_fail(*subquery, err),
        TableFactor::Function { name, args, alias, columns } => exprs_can_fail(args@, err),
        TableFactor::Pivot { table, exprs } => factor_can_fail(*table, err) || exprs_can_fail(exprs@, err),
        TableFactor::Unsupported(kind) => err matches ResolutionError::UnsupportedTableFactor(k) && k@
            == kind@,
    }
}


/// One element that can fail with `err` makes the whole list able to.
pub proof fn lemma_exprs_can_fail_at(es: Seq<Expr>, i: int, err: ResolutionError)
    requires
        0 <= i < es.len(),
        expr_can_fail(es[i], err),
    ensures
        exprs_can_fail(es, err),
    decreases es.len(),
{
    if i < es.len() - 1 {
        lemma_exprs_can_fail_at(es.drop_last(), i, err);
    }
}

/// One element that can fail with `err` makes the whole list able to.
pub proof fn lemma_ctes_can_fail_at(cs: Seq<Cte>, i: int, err: ResolutionError)
    requires
        0 <= i < cs.len(),
        query_can_fail(*cs[i].query, err),
    ensures
        ctes_can_fail(cs, err),
    decreases cs.len(),
{
    if i < cs.len() - 1 {
        lemma_ctes_can_fail_at(cs.drop_last(), i, err);
    }
}

/// One element that can fail with `err` makes the whole list able to.
pub proof fn lemma_items_can_fail_at(items: Seq<SelectItem>, i: int, err: ResolutionError)
    requires
        0 <= i < items.len(),
        item_can_fail(items[i], err),
    ensures
        items_can_fail(items, err),
    decreases items.len(),
{
    if i < items.len() - 1 {
        lemma_items_can_fail_at(items.drop_last(), i, err);
    }
}

/// One element that can fail with `err` makes the whole list able to.
pub proof fn lemma_from_can_fail_at(ts: Seq<TableWithJoins>, i: int, err: ResolutionError)
    requires
        0 <= i < ts.len(),
        table_with_joins_can_fail(ts[i], err),
    ensures
        from_can_fail(ts, err),
    decreases ts.len(),
{
    if i < ts.len() - 1 {
        lemma_from_can_fail_at(ts.drop_last(), i, err);
    }
}

/// One element that can fail with `err` makes the whole list able to.
pub proof fn lemma_joins_can_fail_at(js: Seq<Join>, i: int, err: ResolutionError)
    requires
        0 <= i < js.len(),
        join_can_fail(js[i], err),
    ensures
        joins_can_fail(js, err),
    decreases js.len(),
{
    if i < js.len() - 1 {
        lemma_joins_can_fail_at(js.drop_last(), i, err);
    }
}

} // verus!
