//! The qualified form of a syntax tree that resolution computes beside the
//! tree it reads: every node kept, and every column reference turned into a
//! qualified reference to the same column.
use vstd::prelude::*;

use crate::ast::{Cte, Expr, Join, Query, Select, SelectItem, SetExpr, TableFactor, TableWithJoins};
use crate::resolve::column::strings_view;

verus! {

/// `n` is expression `o` with every column reference rewritten into a
/// qualified reference (`CompoundIdentifier`) to the same column name, and
/// everything else, nested queries included, kept.
pub open spec fn expr_rewritten(o: Expr, n: Expr) -> bool
    decreases o,
{
    match o {
        Expr::Identifier(name) => n matches Expr::CompoundIdentifier { name: n_name, .. } && n_name@
            == name@,
        Expr::CompoundIdentifier { qualifier, name } => n matches Expr::CompoundIdentifier {
            name: n_name,
            ..
        } && n_name@ == name@,
        Expr::Value(v) => n == Expr::Value(v),
        Expr::Subquery(q) => n matches Expr::Subquery(nq) && query_rewritten(*q, *nq),
        Expr::InSubquery { expr, subquery } => n matches Expr::InSubquery { expr: ne, subquery: nq }
            && expr_rewritten(*expr, *ne) && query_rewritten(*subquery, *nq),
        Expr::Exists(q) => n matches Expr::Exists(nq) && query_rewritten(*q, *nq),
        Expr::Function(f) => n matches Expr::Function(nf) && strings_view(nf.name@) == strings_view(
            f.name@,
        ) && exprs_rewritten(
            f.args@,
            nf.args@,
        ) && exprs_rewritten(f.over@, nf.over@),
        Expr::Composite { op, operands } => n matches Expr::Composite { op: n_op, operands: n_operands }
            && n_op == op && exprs_rewritten(operands@, n_operands@),
    }
}

/// `ns` is `os` rewritten element by element.
pub open spec fn exprs_rewritten(os: Seq<Expr>, ns: Seq<Expr>) -> bool
    decreases os,
{
    &&& os.len() == ns.len()
    &&& os.len() > 0 ==> exprs_rewritten(os.drop_last(), ns.drop_last()) && expr_rewritten(
        os.last(),
        ns.last(),
    )
}

/// `n` is the optional expression `o` rewritten.
pub open spec fn opt_expr_rewritten(o: Option<Expr>, n: Option<Expr>) -> bool
    decreases o,
{
    match o {
        Some(e) => n matches Some(ne) && expr_rewritten(e, ne),
        None => n is None,
    }
}

/// `n` is query `o` rewritten: its CTEs, body and ORDER BY list.
pub open spec fn query_rewritten(o: Query, n: Query) -> bool
    decreases o,
{
    &&& ctes_rewritten(o.with@, n.with@)
    &&& set_expr_rewritten(*o.body, *n.body)
    &&& exprs_rewritten(o.order_by@, n.order_by@)
}

/// `ns` is the WITH list `os` with the same names and each query rewritten.
pub open spec fn ctes_rewritten(os: Seq<Cte>, ns: Seq<Cte>) -> bool
    decreases os,
{
    &&& os.len() == ns.len()
    &&& os.len() > 0 ==> ctes_rewritten(os.drop_last(), ns.drop_last()) && ns.last().alias
        == os.last().alias && query_rewritten(*os.last().query, *ns.last().query)
}

/// `n` is query body `o` rewritten.
pub open spec fn set_expr_rewritten(o: SetExpr, n: SetExpr) -> bool
    decreases o,
{
    match o {
        SetExpr::Select(s) => n matches SetExpr::Select(ns) && select_rewritten(*s, *ns),
        SetExpr::Query(q) => n matches SetExpr::Query(nq) && query_rewritten(*q, *nq),
        SetExpr::SetOperation { left, right } => n matches SetExpr::SetOperation {
            left: nl,
            right: nr,
        } && set_expr_rewritten(*left, *nl) && set_expr_rewritten(*right, *nr),
    }
}

/// `n` is SELECT block `o` rewritten, clause by clause.
pub open spec fn select_rewritten(o: Select, n: Select) -> bool
    decreases o,
{
    &&& from_rewritten(o.from@, n.from@)
    &&& items_rewritten(o.projection@, n.projection@)
    &&& opt_expr_rewritten(o.selection, n.selection)
    &&& exprs_rewritten(o.group_by@, n.group_by@)
    &&& opt_expr_rewritten(o.having, n.having)
}

/// `ns` is the SELECT list `os` rewritten item by item.
pub open spec fn items_rewritten(os: Seq<SelectItem>, ns: Seq<SelectItem>) -> bool
    decreases os,
{
    &&& os.len() == ns.len()
    &&& os.len() > 0 ==> items_rewritten(os.drop_last(), ns.drop_last()) && item_rewritten(
        os.last(),
        ns.last(),
    )
}

/// `n` is SELECT item `o` rewritten: its expression rewritten, its alias and
/// any wildcard kept.
pub open spec fn item_rewritten(o: SelectItem, n: SelectItem) -> bool
    decreases o,
{
    match o {
        SelectItem::UnnamedExpr(e) => n matches SelectItem::UnnamedExpr(ne) && expr_rewritten(e, ne),
        SelectItem::ExprWithAlias { expr, alias } => n matches SelectItem::ExprWithAlias {
            expr: ne,
            alias: na,
        } && na == alias && expr_rewritten(expr, ne),
        SelectItem::Wildcard => n == SelectItem::Wildcard,
        SelectItem::QualifiedWildcard(q) => n matches SelectItem::QualifiedWildcard(nq) && strings_view(
            nq@,
        ) == strings_view(q@),
    }
}

/// `ns` is the FROM list `os` rewritten item by item.
pub open spec fn from_rewritten(os: Seq<TableWithJoins>, ns: Seq<TableWithJoins>) -> bool
    decreases os,
{
    &&& os.len() == ns.len()
    &&& os.len() > 0 ==> from_rewritten(os.drop_last(), ns.drop_last()) && table_with_joins_rewritten(
        os.last(),
        ns.last(),
    )
}

/// `n` is FROM item `o` with its joins, rewritten.
pub open spec fn table_with_joins_rewritten(o: TableWithJoins, n: TableWithJoins) -> bool
    decreases o,
{
    factor_rewritten(o.relation, n.relation) && joins_rewritten(o.joins@, n.joins@)
}

/// `ns` is the list of joins `os` rewritten join by join.
pub open spec fn joins_rewritten(os: Seq<Join>, ns: Seq<Join>) -> bool
    decreases os,
{
    &&& os.len() == ns.len()
    &&& os.len() > 0 ==> joins_rewritten(os.drop_last(), ns.drop_last()) && join_rewritten(
        os.last(),
        ns.last(),
    )
}

/// `n` is join `o` rewritten: its table factor and its condition.
pub open spec fn join_rewritten(o: Join, n: Join) -> bool
    decreases o,
{
    factor_rewritten(o.relation, n.relation) && opt_expr_rewritten(o.on, n.on)
}

/// `n` is FROM-clause item `o` rewritten: names, aliases and flags kept,
/// nested queries and expressions rewritten.
pub open spec fn factor_rewritten(o: TableFactor, n: TableFactor) -> bool
    decreases o,
{
    match o {
        TableFactor::Table { name, alias } => n matches TableFactor::Table { name: nn, alias: na }
            && strings_view(nn@) == strings_view(name@) && na == alias,
        TableFactor::Derived { lateral, subquery, alias } => n matches TableFactor::Derived {
            lateral: nl,
            subquery: nq,
            alias: na,
        } && nl == lateral && na == alias && query_rewritten(*subquery, *nq),
        TableFactor::Function { name, args, alias, columns } => n matches TableFactor::Function {
            name: nn,
            args: n_args,
            alias: na,
            columns: nc,
        } && strings_view(nn@) == strings_view(name@) && na == alias && strings_view(nc@)
            == strings_view(columns@) && exprs_rewritten(args@, n_args@),
        TableFactor::Pivot { table, exprs } => n matches TableFactor::Pivot { table: nt, exprs: ne }
            && factor_rewritten(*table, *nt) && exprs_rewritten(exprs@, ne@),
        TableFactor::Unsupported(kind) => n matches TableFactor::Unsupported(nk) && nk == kind,
    }
}

/// Extending rewritten prefixes of two expression lists by one element.
pub proof fn lemma_exprs_rewritten_push(os: Seq<Expr>, ns: Seq<Expr>, i: int)
    requires
        0 <= i < os.len(),
        i < ns.len(),
        exprs_rewritten(os.take(i), ns.take(i)),
        expr_rewritten(os[i], ns[i]),
    ensures
        exprs_rewritten(os.take(i + 1), ns.take(i + 1)),
{
    assert(os.take(i + 1).drop_last() =~= os.take(i));
    assert(ns.take(i + 1).drop_last() =~= ns.take(i));
}

/// Extending rewritten prefixes of two WITH lists by one CTE.
pub proof fn lemma_ctes_rewritten_push(os: Seq<Cte>, ns: Seq<Cte>, i: int)
    requires
        0 <= i < os.len(),
        i < ns.len(),
        ctes_rewritten(os.take(i), ns.take(i)),
        ns[i].alias == os[i].alias,
        query_rewritten(*os[i].query, *ns[i].query),
    ensures
        ctes_rewritten(os.take(i + 1), ns.take(i + 1)),
{
    assert(os.take(i + 1).drop_last() =~= os.take(i));
    assert(ns.take(i + 1).drop_last() =~= ns.take(i));
}

/// Extending rewritten prefixes of two SELECT lists by one item.
pub proof fn lemma_items_rewritten_push(os: Seq<SelectItem>, ns: Seq<SelectItem>, i: int)
    requires
        0 <= i < os.len(),
        i < ns.len(),
        items_rewritten(os.take(i), ns.take(i)),
        item_rewritten(os[i], ns[i]),
    ensures
        items_rewritten(os.take(i + 1), ns.take(i + 1)),
{
    assert(os.take(i + 1).drop_last() =~= os.take(i));
    assert(ns.take(i + 1).drop_last() =~= ns.take(i));
}

/// Extending rewritten prefixes of two FROM lists by one item.
pub proof fn lemma_from_rewritten_push(os: Seq<TableWithJoins>, ns: Seq<TableWithJoins>, i: int)
    requires
        0 <= i < os.len(),
        i < ns.len(),
        from_rewritten(os.take(i), ns.take(i)),
        table_with_joins_rewritten(os[i], ns[i]),
    ensures
        from_rewritten(os.take(i + 1), ns.take(i + 1)),
{
    assert(os.take(i + 1).drop_last() =~= os.take(i));
    assert(ns.take(i + 1).drop_last() =~= ns.take(i));
}

/// Extending rewritten prefixes of two join lists by one join.
pub proof fn lemma_joins_rewritten_push(os: Seq<Join>, ns: Seq<Join>, i: int)
    requires
        0 <= i < os.len(),
        i < ns.len(),
        joins_rewritten(os.take(i), ns.take(i)),
        join_rewritten(os[i], ns[i]),
    ensures
        joins_rewritten(os.take(i + 1), ns.take(i + 1)),
{
    assert(os.take(i + 1).drop_last() =~= os.take(i));
    assert(ns.take(i + 1).drop_last() =~= ns.take(i));
}

} // verus!
