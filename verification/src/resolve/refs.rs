//! The column references a syntax tree holds, and what it means for an
//! expression to be the resolved form of another.
use vstd::prelude::*;

use crate::ast::{Cte, Expr, Join, Query, Select, SelectItem, SetExpr, TableFactor, TableWithJoins};
use crate::resolve::column::{column_lookup, lookup_from, strings_view, ColumnLookup};
use crate::resolve::errors::ResolutionError;
use crate::resolve::failures::query_can_fail;
use crate::resolve::from::{cte_lookup, factor_key, from_factors, lemma_cte_lookup_from_stable, source_for};
use crate::resolve::query::{output_names_of, query_fails_with};
use crate::resolve::scope::sources::ResolvedSource;
use crate::resolve::scope::{ColumnKey, ResolvedScope, ScopeType};
use crate::resolve::{bindings_kept, same_but_children};

verus! {

/// The reference that a qualified column name stands for once resolved:
/// the column and the last part of its qualifier.
pub open spec fn compound_key(qualifier: Seq<String>, name: String) -> ColumnKey {
    (name@, if qualifier.len() > 0 { qualifier.last()@ } else { Seq::<char>::empty() })
}

/// The column references written in an expression, subqueries included.
pub open spec fn expr_refs(e: Expr) -> Set<ColumnKey>
    decreases e,
{
    match e {
        Expr::Identifier(_) => Set::empty(),
        Expr::CompoundIdentifier { qualifier, name } => set![compound_key(qualifier@, name)],
        Expr::Value(_) => Set::empty(),
        Expr::Subquery(q) => query_refs(*q),
        Expr::InSubquery { expr, subquery } => expr_refs(*expr).union(query_refs(*subquery)),
        Expr::Exists(q) => query_refs(*q),
        Expr::Function(f) => exprs_refs(f.args@).union(exprs_refs(f.over@)),
        Expr::Composite { op, operands } => exprs_refs(operands@),
    }
}

/// The column references written in a list of expressions.
pub open spec fn exprs_refs(es: Seq<Expr>) -> Set<ColumnKey>
    decreases es,
{
    if es.len() == 0 {
        Set::empty()
    } else {
        exprs_refs(es.drop_last()).union(expr_refs(es.last()))
    }
}

/// The column references written in an optional expression.
pub open spec fn opt_expr_refs(e: Option<Expr>) -> Set<ColumnKey>
    decreases e,
{
    match e {
        Some(x) => expr_refs(x),
        None => Set::empty(),
    }
}

/// The column references written in a query, nested queries included.
pub open spec fn query_refs(q: Query) -> Set<ColumnKey>
    decreases q,
{
    ctes_refs(q.with@).union(set_expr_refs(*q.body)).union(exprs_refs(q.order_by@))
}

/// The column references written in the queries of a WITH list.
pub open spec fn ctes_refs(cs: Seq<Cte>) -> Set<ColumnKey>
    decreases cs,
{
    if cs.len() == 0 {
        Set::empty()
    } else {
        ctes_refs(cs.drop_last()).union(query_refs(*cs.last().query))
    }
}

/// The column references written in a query body.
pub open spec fn set_expr_refs(b: SetExpr) -> Set<ColumnKey>
    decreases b,
{
    match b {
        SetExpr::Select(s) => select_refs(*s),
        SetExpr::Query(q) => query_refs(*q),
        SetExpr::SetOperation { left, right } => set_expr_refs(*left).union(set_expr_refs(*right)),
    }
}

/// The column references written in a SELECT block.
pub open spec fn select_refs(s: Select) -> Set<ColumnKey>
    decreases s,
{
    from_refs(s.from@).union(items_refs(s.projection@)).union(opt_expr_refs(s.selection)).union(
        exprs_refs(s.group_by@),
    ).union(opt_expr_refs(s.having))
}

/// The column references written in a SELECT list.
pub open spec fn items_refs(items: Seq<SelectItem>) -> Set<ColumnKey>
    decreases items,
{
    if items.len() == 0 {
        Set::empty()
    } else {
        items_refs(items.drop_last()).union(item_refs(items.last()))
    }
}

/// The column references written in one SELECT item.
pub open spec fn item_refs(item: SelectItem) -> Set<ColumnKey>
    decreases item,
{
    match item {
        SelectItem::UnnamedExpr(e) => expr_refs(e),
        SelectItem::ExprWithAlias { expr, alias } => expr_refs(expr),
        SelectItem::Wildcard => Set::empty(),
        SelectItem::QualifiedWildcard(_) => Set::empty(),
    }
}

/// The column references written in a FROM list.
pub open spec fn from_refs(ts: Seq<TableWithJoins>) -> Set<ColumnKey>
    decreases ts,
{
    if ts.len() == 0 {
        Set::empty()
    } else {
        from_refs(ts.drop_last()).union(table_with_joins_refs(ts.last()))
    }
}

/// The column references written in one FROM item and its joins.
pub open spec fn table_with_joins_refs(t: TableWithJoins) -> Set<ColumnKey>
    decreases t,
{
    factor_refs(t.relation).union(joins_refs(t.joins@))
}

/// The column references written in a list of joins.
pub open spec fn joins_refs(js: Seq<Join>) -> Set<ColumnKey>
    decreases js,
{
    if js.len() == 0 {
        Set::empty()
    } else {
        joins_refs(js.drop_last()).union(join_refs(js.last()))
    }
}

/// The column references written in one join.
pub open spec fn join_refs(j: Join) -> Set<ColumnKey>
    decreases j,
{
    factor_refs(j.relation).union(opt_expr_refs(j.on))
}

/// The column references written in one FROM-clause item.
pub open spec fn factor_refs(f: TableFactor) -> Set<ColumnKey>
    decreases f,
{
    match f {
        TableFactor::Derived { lateral, subquery, alias } => query_refs(*subquery),
        TableFactor::Function { name, args, alias, columns } => exprs_refs(args@),
        TableFactor::Pivot { table, exprs } => factor_refs(*table).union(exprs_refs(exprs@)),
        _ => Set::empty(),
    }
}

/// Scope `n` of `scopes` is a scope of type `t` opened under the last scope
/// of `visible`, through which lookups pass to the enclosing scopes exactly
/// when `lateral` holds.
pub open spec fn opened_scope(
    scopes: Seq<ResolvedScope>,
    visible: Seq<usize>,
    n: usize,
    t: ScopeType,
    lateral: bool,
) -> bool {
    &&& visible.last() < n < scopes.len()
    &&& scopes[n as int].parent == visible.last()
    &&& scopes[n as int].scope_type == t
    &&& scopes[n as int].allow_lateral == lateral
}

/// Scope `n` of `scopes` is a subquery scope opened under the last scope of
/// `visible`, through which lookups pass to the enclosing scopes.
pub open spec fn subquery_scope(scopes: Seq<ResolvedScope>, visible: Seq<usize>, n: usize) -> bool {
    opened_scope(scopes, visible, n, ScopeType::Subquery, true)
}

/// `r` is `e` with every column reference replaced by its resolution in the
/// given scopes: `CompoundIdentifier { qualifier: [source], name }` for the
/// source that the lookup found. Each nested query is resolved, as
/// `query_body_resolved` says, in a subquery scope of its own opened under
/// the scope `e` is resolved in, from which lookups reach the enclosing
/// scopes.
pub open spec fn expr_resolved(
    scopes: Seq<ResolvedScope>,
    visible: Seq<usize>,
    e: Expr,
    r: Expr,
) -> bool
    decreases e,
{
    match e {
        Expr::Identifier(name) => column_resolved(scopes, visible, Seq::empty(), name, r),
        Expr::CompoundIdentifier { qualifier, name } => column_resolved(
            scopes,
            visible,
            strings_view(qualifier@),
            name,
            r,
        ),
        Expr::Value(v) => r == Expr::Value(v),
        Expr::Subquery(q) => r matches Expr::Subquery(rq) && exists|n: usize|
            #[trigger] subquery_scope(scopes, visible, n) && query_body_resolved(
                scopes,
                visible.push(n),
                *q,
                *rq,
            ),
        Expr::InSubquery { expr, subquery } => r matches Expr::InSubquery {
            expr: r_expr,
            subquery: r_sub,
        } && expr_resolved(scopes, visible, *expr, *r_expr) && exists|n: usize|
            #[trigger] subquery_scope(scopes, visible, n) && query_body_resolved(
                scopes,
                visible.push(n),
                *subquery,
                *r_sub,
            ),
        Expr::Exists(q) => r matches Expr::Exists(rq) && exists|n: usize|
            #[trigger] subquery_scope(scopes, visible, n) && query_body_resolved(
                scopes,
                visible.push(n),
                *q,
                *rq,
            ),
        Expr::Function(f) => r matches Expr::Function(rf) && strings_view(rf.name@) == strings_view(
            f.name@,
        ) && exprs_resolved(
            scopes,
            visible,
            f.args@,
            rf.args@,
        ) && exprs_resolved(scopes, visible, f.over@, rf.over@),
        Expr::Composite { op, operands } => r matches Expr::Composite {
            op: r_op,
            operands: r_operands,
        } && r_op == op && exprs_resolved(scopes, visible, operands@, r_operands@),
    }
}

/// `rs` is `es` resolved element by element.
pub open spec fn exprs_resolved(
    scopes: Seq<ResolvedScope>,
    visible: Seq<usize>,
    es: Seq<Expr>,
    rs: Seq<Expr>,
) -> bool
    decreases es,
{
    &&& es.len() == rs.len()
    &&& es.len() > 0 ==> {
        &&& exprs_resolved(scopes, visible, es.drop_last(), rs.drop_last())
        &&& expr_resolved(scopes, visible, es.last(), rs.last())
    }
}

/// `r` is the column name `q.name` resolved: the lookup found a source and
/// `r` names the column qualified by that source.
pub open spec fn column_resolved(
    scopes: Seq<ResolvedScope>,
    visible: Seq<usize>,
    q: Seq<Seq<char>>,
    name: String,
    r: Expr,
) -> bool {
    &&& column_lookup(scopes, visible, q, name@) matches ColumnLookup::Found(source)
    &&& r matches Expr::CompoundIdentifier { qualifier: r_q, name: r_name }
    &&& r_name@ == name@
    &&& strings_view(r_q@) == seq![source]
}

/// `s2` holds the scopes of `s1`, perhaps followed by more, each with the
/// sources, CTE bindings, lateral visibility, parent and type it had in
/// `s1`: all that a column or CTE lookup reads, and where each scope stands
/// in the tree.
pub open spec fn lookups_kept(s1: Seq<ResolvedScope>, s2: Seq<ResolvedScope>) -> bool {
    &&& s1.len() <= s2.len()
    &&& forall|i: int|
        0 <= i < s1.len() ==> (#[trigger] s2[i]).sources == s1[i].sources && s2[i].ctes == s1[i].ctes
            && s2[i].allow_lateral == s1[i].allow_lateral && s2[i].parent == s1[i].parent && s2[i].scope_type
            == s1[i].scope_type
}

/// Every scope of `s1` after scope `k` has in `s2` the selected columns it
/// had in `s1`.
pub open spec fn selected_kept_above(s1: Seq<ResolvedScope>, s2: Seq<ResolvedScope>, k: int) -> bool {
    forall|i: int| k < i < s1.len() ==> #[trigger] s2[i].selected_columns == s1[i].selected_columns
}

/// `s2` keeps every scope of `s1` as `lookups_kept` says, except that scope
/// `x` may have changed its sources.
pub open spec fn lookups_kept_except(s1: Seq<ResolvedScope>, s2: Seq<ResolvedScope>, x: int) -> bool {
    &&& s1.len() <= s2.len()
    &&& forall|i: int|
        0 <= i < s1.len() ==> (#[trigger] s2[i]).allow_lateral == s1[i].allow_lateral && s2[i].parent
            == s1[i].parent && s2[i].scope_type == s1[i].scope_type && s2[i].ctes == s1[i].ctes && (i != x
            ==> s2[i].sources == s1[i].sources)
}

/// As `lookups_kept_except`, where scope `x` may also have gained CTE
/// bindings after the ones it held.
pub open spec fn bindings_grown_except(s1: Seq<ResolvedScope>, s2: Seq<ResolvedScope>, x: int) -> bool {
    &&& s1.len() <= s2.len()
    &&& forall|i: int|
        0 <= i < s1.len() ==> (#[trigger] s2[i]).allow_lateral == s1[i].allow_lateral && s2[i].parent
            == s1[i].parent && s2[i].scope_type == s1[i].scope_type && (i != x ==> s2[i].sources
            == s1[i].sources && s2[i].ctes == s1[i].ctes)
    &&& 0 <= x < s1.len() ==> s1[x].ctes@.len() <= s2[x].ctes@.len() && s2[x].ctes@.take(
        s1[x].ctes@.len() as int,
    ) == s1[x].ctes@
}

/// Position `p` of chain `visible` holds a scope that lets no lookup
/// through to the scopes before it, and every scope of the chain from `p`
/// on comes after scope `x`.
pub open spec fn barrier_above(scopes: Seq<ResolvedScope>, visible: Seq<usize>, x: int, p: int) -> bool {
    &&& 0 <= p < visible.len()
    &&& !scopes[visible[p] as int].allow_lateral
    &&& forall|j: int| p <= j < visible.len() ==> #[trigger] visible[j] > x
}

/// No lookup along chain `visible` reaches scope `x`: a scope after `x`
/// stops every lookup before it gets there.
pub open spec fn shielded(scopes: Seq<ResolvedScope>, visible: Seq<usize>, x: int) -> bool {
    exists|p: int| #[trigger] barrier_above(scopes, visible, x, p)
}

/// Every scope but the first has a parent of a lower index; the first is
/// its own parent.
pub open spec fn parents_below(scopes: Seq<ResolvedScope>) -> bool {
    &&& scopes.len() > 0 ==> scopes[0].parent == 0
    &&& forall|i: int| 0 < i < scopes.len() ==> #[trigger] scopes[i].parent < i
}

/// Keeping what lookups read keeps it with no exception.
pub proof fn lemma_lookups_kept_except_of(s1: Seq<ResolvedScope>, s2: Seq<ResolvedScope>)
    requires
        lookups_kept(s1, s2),
    ensures
        lookups_kept_except(s1, s2, -1),
{
}

/// A scope opened under the last scope of a shielded chain extends it to a
/// shielded chain.
pub proof fn lemma_chain_push_above(s1: Seq<ResolvedScope>, visible: Seq<usize>, n: usize, x: int)
    requires
        x >= 0 ==> shielded(s1, visible, x) && parents_below(s1),
        n < s1.len(),
        s1[n as int].parent == visible.last(),
    ensures
        x >= 0 ==> shielded(s1, visible.push(n), x),
{
    if x >= 0 {
        let p = choose|p: int| #[trigger] barrier_above(s1, visible, x, p);
        let vn = visible.push(n);
        assert(visible[visible.len() - 1] > x);
        if n == 0 {
            assert(false);
        }
        assert(s1[n as int].parent < n);
        assert forall|j: int| p <= j < vn.len() implies #[trigger] vn[j] > x by {
            if j < visible.len() {
                assert(vn[j] == visible[j]);
            }
        }
        assert(vn[p] == visible[p]);
        assert(barrier_above(s1, vn, x, p));
    }
}

/// A lookup that a scope after `x` stops reads nothing of `x`.
pub proof fn lemma_lookup_from_stable_except(
    s1: Seq<ResolvedScope>,
    s2: Seq<ResolvedScope>,
    visible: Seq<usize>,
    k: int,
    q: Seq<Seq<char>>,
    col: Seq<char>,
    x: int,
    p: int,
)
    requires
        lookups_kept_except(s1, s2, x),
        x >= 0 ==> barrier_above(s1, visible, x, p) && p <= k,
        k < visible.len(),
        forall|j: int| 0 <= j < visible.len() ==> #[trigger] visible[j] < s1.len(),
    ensures
        lookup_from(s1, visible, k, q, col) == lookup_from(s2, visible, k, q, col),
    decreases k + 1,
{
    if k >= 0 {
        assert(visible[k] < s1.len());
        if x >= 0 {
            assert(visible[k] > x);
            if k > p {
                lemma_lookup_from_stable_except(s1, s2, visible, k - 1, q, col, x, p);
            }
        } else {
            lemma_lookup_from_stable_except(s1, s2, visible, k - 1, q, col, x, p);
        }
    }
}

/// Keeping bindings keeps what lookups read.
pub proof fn lemma_bindings_kept_lookups(s1: Seq<ResolvedScope>, s2: Seq<ResolvedScope>)
    requires
        bindings_kept(s1, s2),
    ensures
        lookups_kept(s1, s2),
{
    assert forall|i: int| 0 <= i < s1.len() implies (#[trigger] s2[i]).sources == s1[i].sources
        && s2[i].ctes == s1[i].ctes && s2[i].allow_lateral == s1[i].allow_lateral && s2[i].parent
        == s1[i].parent && s2[i].scope_type == s1[i].scope_type by {
        assert(same_but_children(s1[i], s2[i]));
    }
}

/// A lookup reads only what `lookups_kept` keeps of the scopes it searches.
pub proof fn lemma_lookup_from_stable(
    s1: Seq<ResolvedScope>,
    s2: Seq<ResolvedScope>,
    visible: Seq<usize>,
    k: int,
    q: Seq<Seq<char>>,
    col: Seq<char>,
)
    requires
        lookups_kept(s1, s2),
        k < visible.len(),
        forall|j: int| 0 <= j < visible.len() ==> #[trigger] visible[j] < s1.len(),
    ensures
        lookup_from(s1, visible, k, q, col) == lookup_from(s2, visible, k, q, col),
    decreases k + 1,
{
    if k >= 0 {
        lemma_lookup_from_stable(s1, s2, visible, k - 1, q, col);
    }
}

/// An expression resolved against `s1` stays resolved against scopes that keep
/// what its lookups read.
pub proof fn lemma_expr_resolved_stable(
    s1: Seq<ResolvedScope>,
    s2: Seq<ResolvedScope>,
    visible: Seq<usize>,
    e: Expr,
    r: Expr,
)
    requires
        selected_kept_above(s1, s2, visible.last() as int),
        lookups_kept(s1, s2),
        forall|j: int| 0 <= j < visible.len() ==> #[trigger] visible[j] < s1.len(),
    ensures
        expr_resolved(s1, visible, e, r) ==> expr_resolved(s2, visible, e, r),
    decreases e, 0nat,
{
    lemma_lookups_kept_except_of(s1, s2);
    lemma_expr_resolved_stable_except(s1, s2, visible, e, r, -1);
}

/// `lemma_expr_resolved_stable` for lists.
pub proof fn lemma_exprs_resolved_stable(
    s1: Seq<ResolvedScope>,
    s2: Seq<ResolvedScope>,
    visible: Seq<usize>,
    es: Seq<Expr>,
    rs: Seq<Expr>,
)
    requires
        selected_kept_above(s1, s2, visible.last() as int),
        lookups_kept(s1, s2),
        forall|j: int| 0 <= j < visible.len() ==> #[trigger] visible[j] < s1.len(),
    ensures
        exprs_resolved(s1, visible, es, rs) ==> exprs_resolved(s2, visible, es, rs),
    decreases es, 0nat,
{
    lemma_lookups_kept_except_of(s1, s2);
    lemma_exprs_resolved_stable_except(s1, s2, visible, es, rs, -1);
}

/// `n` is the optional expression `o` resolved.
pub open spec fn opt_expr_resolved(
    scopes: Seq<ResolvedScope>,
    visible: Seq<usize>,
    o: Option<Expr>,
    n: Option<Expr>,
) -> bool
    decreases o,
{
    match o {
        Some(e) => n matches Some(ne) && expr_resolved(scopes, visible, e, ne),
        None => n is None,
    }
}

/// `n` is SELECT item `o` with its expression resolved; a wildcard is
/// resolved by `expand_wildcard`, which reads the active scope's sources.
pub open spec fn item_resolved(
    scopes: Seq<ResolvedScope>,
    visible: Seq<usize>,
    o: SelectItem,
    n: SelectItem,
) -> bool
    decreases o,
{
    match o {
        SelectItem::UnnamedExpr(e) => n matches SelectItem::UnnamedExpr(ne) && expr_resolved(
            scopes,
            visible,
            e,
            ne,
        ),
        SelectItem::ExprWithAlias { expr, .. } => n matches SelectItem::ExprWithAlias { expr: ne, .. }
            && expr_resolved(scopes, visible, expr, ne),
        _ => true,
    }
}

/// `ns` is the SELECT list `os` resolved item by item.
pub open spec fn items_resolved(
    scopes: Seq<ResolvedScope>,
    visible: Seq<usize>,
    os: Seq<SelectItem>,
    ns: Seq<SelectItem>,
) -> bool
    decreases os,
{
    &&& os.len() == ns.len()
    &&& os.len() > 0 ==> items_resolved(scopes, visible, os.drop_last(), ns.drop_last())
        && item_resolved(scopes, visible, os.last(), ns.last())
}

/// `sa` is scope `s` as it stood while it held only its first `cap`
/// sources, as far as a lookup reads a scope: its sources, its lateral
/// visibility, its parent and its type.
pub open spec fn earlier_scope(s: ResolvedScope, cap: int, sa: ResolvedScope) -> bool {
    &&& 0 <= cap <= s.sources.entries@.len()
    &&& sa.sources.entries@ == s.sources.entries@.take(cap)
    &&& sa.allow_lateral == s.allow_lateral
    &&& sa.parent == s.parent
    &&& sa.scope_type == s.scope_type
}

/// Scope `n` holds the sources of scope `o`, in order, perhaps followed by
/// more.
pub open spec fn sources_extended(o: ResolvedScope, n: ResolvedScope) -> bool {
    &&& o.sources.entries@.len() <= n.sources.entries@.len()
    &&& n.sources.entries@.take(o.sources.entries@.len() as int) == o.sources.entries@
}

/// `n` is FROM item `o` resolved, `o` being registered after the first
/// `cap` sources of the last scope of `visible`, as the source at position
/// `cap` there, under its `factor_key`; a named table or a table function registered as
/// `source_for` says, a derived table as the scope its query is resolved
/// in, with that scope's output names as its columns. A derived table that is not
/// `LATERAL` has its query resolved in a derived-table scope of its own,
/// opened under that scope, that lets no lookup through to the scopes around
/// it. The rest is resolved at the time when that scope held only its first
/// `cap` sources (`earlier_scope`): the query of a `LATERAL` derived table in
/// a derived-table scope of its own, opened under it, through which lookups
/// reach those sources and the scopes around them; the arguments of a table
/// function. A pivot has the table it reshapes resolved at `cap`, and its
/// expressions once that table is registered, with `cap + 1` sources.
pub open spec fn factor_resolved(
    scopes: Seq<ResolvedScope>,
    visible: Seq<usize>,
    cap: int,
    o: TableFactor,
    n: TableFactor,
) -> bool
    decreases o,
{
    &&& 0 <= cap < scopes[visible.last() as int].sources.entries@.len()
    &&& scopes[visible.last() as int].sources.entries@[cap].name@ == factor_key(o)
    &&& match o {
        TableFactor::Table { .. } => source_for(scopes, visible, scopes[visible.last() as int].sources.entries@[cap], o),
        TableFactor::Derived { lateral, subquery, alias } => n matches TableFactor::Derived {
            subquery: ns,
            ..
        } && scopes[visible.last() as int].sources.entries@[cap].source matches ResolvedSource::Derived(ds)
            && strings_view(ds.columns@) == output_names_of(scopes[ds.scope_id as int]) && (
        !lateral ==> opened_scope(scopes, visible, ds.scope_id, ScopeType::DerivedTable, false)
            && query_body_resolved(scopes, visible.push(ds.scope_id), *subquery, *ns)) && (lateral ==> exists|
            sa: ResolvedScope,
        |
            #[trigger] earlier_scope(scopes[visible.last() as int], cap, sa) && opened_scope(
                scopes.update(visible.last() as int, sa),
                visible,
                ds.scope_id,
                ScopeType::DerivedTable,
                true,
            ) && query_body_resolved(
                scopes.update(visible.last() as int, sa),
                visible.push(ds.scope_id),
                *subquery,
                *ns,
            )),
        TableFactor::Function { name, args, alias, columns } => n matches TableFactor::Function {
            args: na,
            ..
        } && source_for(scopes, visible, scopes[visible.last() as int].sources.entries@[cap], o) && exists|
            sa: ResolvedScope,
        |
            #[trigger] earlier_scope(scopes[visible.last() as int], cap, sa) && exprs_resolved(
                scopes.update(visible.last() as int, sa),
                visible,
                args@,
                na@,
            ),
        TableFactor::Pivot { table, exprs } => n matches TableFactor::Pivot { table: nt, exprs: ne }
            && factor_resolved(scopes, visible, cap, *table, *nt) && exists|sa: ResolvedScope|
            #[trigger] earlier_scope(scopes[visible.last() as int], cap + 1, sa) && exprs_resolved(
                scopes.update(visible.last() as int, sa),
                visible,
                exprs@,
                ne@,
            ),
        _ => true,
    }
}

/// `ns` is the list of joins `os`, registered after the first `base`
/// sources of the last scope of `visible`, with each joined FROM item
/// resolved as `factor_resolved` says and each `ON` condition resolved once
/// that item is registered.
pub open spec fn joins_resolved(
    scopes: Seq<ResolvedScope>,
    visible: Seq<usize>,
    base: int,
    os: Seq<Join>,
    ns: Seq<Join>,
) -> bool
    decreases os,
{
    &&& os.len() == ns.len()
    &&& os.len() > 0 ==> {
        &&& joins_resolved(scopes, visible, base, os.drop_last(), ns.drop_last())
        &&& factor_resolved(scopes, visible, base + os.len() - 1, os.last().relation, ns.last().relation)
        &&& exists|sa: ResolvedScope|
            #[trigger] earlier_scope(scopes[visible.last() as int], base + os.len(), sa) && opt_expr_resolved(
                scopes.update(visible.last() as int, sa),
                visible,
                os.last().on,
                ns.last().on,
            )
    }
}

/// `ns` is FROM list `os`, registered after the first `base` sources of the
/// last scope of `visible`, with each item and each of its joins resolved as
/// `factor_resolved` and `joins_resolved` say.
pub open spec fn from_resolved(
    scopes: Seq<ResolvedScope>,
    visible: Seq<usize>,
    base: int,
    os: Seq<TableWithJoins>,
    ns: Seq<TableWithJoins>,
) -> bool
    decreases os,
{
    &&& os.len() == ns.len()
    &&& os.len() > 0 ==> {
        let c = base + from_factors(os.drop_last()).len();
        &&& from_resolved(scopes, visible, base, os.drop_last(), ns.drop_last())
        &&& factor_resolved(scopes, visible, c, os.last().relation, ns.last().relation)
        &&& joins_resolved(scopes, visible, c + 1, os.last().joins@, ns.last().joins@)
    }
}

/// `n` is SELECT block `o` with its FROM items resolved (`from_resolved`)
/// and the expressions of its SELECT list, WHERE, GROUP BY and HAVING
/// resolved from the scope the block is resolved in (the last of
/// `visible`), as it stands once its FROM clause is registered.
pub open spec fn select_resolved(
    scopes: Seq<ResolvedScope>,
    visible: Seq<usize>,
    o: Select,
    n: Select,
) -> bool
    decreases o,
{
    &&& from_resolved(
        scopes,
        visible,
        scopes[visible.last() as int].sources.entries@.len() - from_factors(o.from@).len(),
        o.from@,
        n.from@,
    )
    &&& items_resolved(scopes, visible, o.projection@, n.projection@)
    &&& opt_expr_resolved(scopes, visible, o.selection, n.selection)
    &&& exprs_resolved(scopes, visible, o.group_by@, n.group_by@)
    &&& opt_expr_resolved(scopes, visible, o.having, n.having)
}

/// `lemma_expr_resolved_stable` for optional expressions.
pub proof fn lemma_opt_expr_resolved_stable(
    s1: Seq<ResolvedScope>,
    s2: Seq<ResolvedScope>,
    visible: Seq<usize>,
    o: Option<Expr>,
    n: Option<Expr>,
)
    requires
        selected_kept_above(s1, s2, visible.last() as int),
        lookups_kept(s1, s2),
        forall|j: int| 0 <= j < visible.len() ==> #[trigger] visible[j] < s1.len(),
    ensures
        opt_expr_resolved(s1, visible, o, n) ==> opt_expr_resolved(s2, visible, o, n),
    decreases o, 0nat,
{
    lemma_lookups_kept_except_of(s1, s2);
    lemma_opt_expr_resolved_stable_except(s1, s2, visible, o, n, -1);
}

/// `lemma_expr_resolved_stable` for SELECT lists.
pub proof fn lemma_items_resolved_stable(
    s1: Seq<ResolvedScope>,
    s2: Seq<ResolvedScope>,
    visible: Seq<usize>,
    os: Seq<SelectItem>,
    ns: Seq<SelectItem>,
)
    requires
        selected_kept_above(s1, s2, visible.last() as int),
        lookups_kept(s1, s2),
        forall|j: int| 0 <= j < visible.len() ==> #[trigger] visible[j] < s1.len(),
    ensures
        items_resolved(s1, visible, os, ns) ==> items_resolved(s2, visible, os, ns),
    decreases os, 0nat,
{
    lemma_lookups_kept_except_of(s1, s2);
    lemma_items_resolved_stable_except(s1, s2, visible, os, ns, -1);
}

/// `n` is query body `o` resolved: a SELECT block as `select_resolved`
/// says; a parenthesised query in a subquery scope of its own, and each
/// branch of a set operation in a set-operation branch scope of its own,
/// both opened under the scope the body is resolved in and letting lookups
/// through to it.
pub open spec fn set_expr_select_resolved(
    scopes: Seq<ResolvedScope>,
    visible: Seq<usize>,
    o: SetExpr,
    n: SetExpr,
) -> bool
    decreases o,
{
    match o {
        SetExpr::Select(s) => n matches SetExpr::Select(ns) && select_resolved(scopes, visible, *s, *ns),
        SetExpr::Query(q) => n matches SetExpr::Query(nq) && exists|m: usize|
            #[trigger] subquery_scope(scopes, visible, m) && query_body_resolved(
                scopes,
                visible.push(m),
                *q,
                *nq,
            ),
        SetExpr::SetOperation { left, right } => n matches SetExpr::SetOperation { left: nl, right: nr }
            && (exists|m: usize|
            #[trigger] opened_scope(scopes, visible, m, ScopeType::SetOpBranch, true)
                && set_expr_select_resolved(scopes, visible.push(m), *left, *nl)) && (exists|m: usize|
            #[trigger] opened_scope(scopes, visible, m, ScopeType::SetOpBranch, true)
                && set_expr_select_resolved(scopes, visible.push(m), *right, *nr)),
    }
}

/// A query body resolved in `s1` stays resolved in `s2`.
pub proof fn lemma_set_expr_resolved_stable(
    s1: Seq<ResolvedScope>,
    s2: Seq<ResolvedScope>,
    visible: Seq<usize>,
    o: SetExpr,
    n: SetExpr,
)
    requires
        selected_kept_above(s1, s2, visible.last() as int),
        visible.len() > 0,
        lookups_kept(s1, s2),
        forall|j: int| 0 <= j < visible.len() ==> #[trigger] visible[j] < s1.len(),
    ensures
        set_expr_select_resolved(s1, visible, o, n) ==> set_expr_select_resolved(s2, visible, o, n),
    decreases o, 0nat,
{
    lemma_lookups_kept_except_of(s1, s2);
    lemma_set_expr_resolved_stable_except(s1, s2, visible, o, n, -1);
}

/// `sa` is scope `s` as it stood while it held only its first `k` CTE
/// bindings, as far as a lookup from a CTE scope opened under it reads it:
/// its bindings, its lateral visibility, its parent and its type.
pub open spec fn earlier_bindings(s: ResolvedScope, k: int, sa: ResolvedScope) -> bool {
    &&& 0 <= k <= s.ctes@.len()
    &&& sa.ctes@ == s.ctes@.take(k)
    &&& sa.allow_lateral == s.allow_lateral
    &&& sa.parent == s.parent
    &&& sa.scope_type == s.scope_type
}

/// `ns` is WITH list `os`, bound after the first `base` CTE bindings of the
/// last scope of `visible`, resolved: each CTE's query, at the time when
/// that scope held only the bindings before the CTE's own
/// (`earlier_bindings`), in a CTE scope of its own, opened under that scope,
/// that lets no lookup through to the scopes around it.
pub open spec fn ctes_resolved(
    scopes: Seq<ResolvedScope>,
    visible: Seq<usize>,
    base: int,
    os: Seq<Cte>,
    ns: Seq<Cte>,
) -> bool
    decreases os,
{
    &&& os.len() == ns.len()
    &&& os.len() > 0 ==> ctes_resolved(scopes, visible, base, os.drop_last(), ns.drop_last()) && exists|
        sa: ResolvedScope,
    |
        #[trigger] earlier_bindings(scopes[visible.last() as int], base + os.len() - 1, sa) && exists|m: usize|
            #[trigger] opened_scope(scopes.update(visible.last() as int, sa), visible, m, ScopeType::Cte, false)
                && query_body_resolved(
                scopes.update(visible.last() as int, sa),
                visible.push(m),
                *os.last().query,
                *ns.last().query,
            )
}

/// `n` is query `o` resolved in the scope that ends `visible`: its WITH list
/// as `ctes_resolved` says, its body as `set_expr_select_resolved` says, and
/// its ORDER BY list.
pub open spec fn query_body_resolved(
    scopes: Seq<ResolvedScope>,
    visible: Seq<usize>,
    o: Query,
    n: Query,
) -> bool
    decreases o,
{
    &&& ctes_resolved(
        scopes,
        visible,
        scopes[visible.last() as int].ctes@.len() - o.with@.len(),
        o.with@,
        n.with@,
    )
    &&& set_expr_select_resolved(scopes, visible, *o.body, *n.body)
    &&& exprs_resolved(scopes, visible, o.order_by@, n.order_by@)
}

/// `lemma_expr_resolved_stable` for a query resolved in one scope.
pub proof fn lemma_query_body_resolved_stable(
    s1: Seq<ResolvedScope>,
    s2: Seq<ResolvedScope>,
    visible: Seq<usize>,
    o: Query,
    n: Query,
)
    requires
        selected_kept_above(s1, s2, visible.last() as int),
        visible.len() > 0,
        lookups_kept(s1, s2),
        forall|j: int| 0 <= j < visible.len() ==> #[trigger] visible[j] < s1.len(),
    ensures
        query_body_resolved(s1, visible, o, n) ==> query_body_resolved(s2, visible, o, n),
    decreases o, 0nat,
{
    lemma_lookups_kept_except_of(s1, s2);
    lemma_query_body_resolved_stable_except(s1, s2, visible, o, n, -1);
}

/// Extending a resolved prefix of a SELECT list by one resolved item.
pub proof fn lemma_items_resolved_push(
    scopes: Seq<ResolvedScope>,
    visible: Seq<usize>,
    os: Seq<SelectItem>,
    ns: Seq<SelectItem>,
    i: int,
)
    requires
        0 <= i < os.len(),
        ns.len() == i + 1,
        items_resolved(scopes, visible, os.take(i), ns.drop_last()),
        item_resolved(scopes, visible, os[i], ns[i]),
    ensures
        items_resolved(scopes, visible, os.take(i + 1), ns),
{
    assert(os.take(i + 1).drop_last() =~= os.take(i));
}

/// Whether expression `e` holds no nested query.
pub open spec fn expr_plain(e: Expr) -> bool
    decreases e,
{
    match e {
        Expr::Subquery(_) => false,
        Expr::InSubquery { .. } => false,
        Expr::Exists(_) => false,
        Expr::Function(f) => exprs_plain(f.args@) && exprs_plain(f.over@),
        Expr::Composite { op, operands } => exprs_plain(operands@),
        _ => true,
    }
}

/// Whether none of the expressions `es` holds a nested query.
pub open spec fn exprs_plain(es: Seq<Expr>) -> bool
    decreases es,
{
    es.len() > 0 ==> exprs_plain(es.drop_last()) && expr_plain(es.last())
}

/// Whether the lookup of every column reference of the expression without
/// nested queries `e`, from the last scope of `visible` outward, finds
/// exactly one source.
pub open spec fn expr_lookups_found(scopes: Seq<ResolvedScope>, visible: Seq<usize>, e: Expr) -> bool
    decreases e,
{
    match e {
        Expr::Identifier(name) => column_lookup(scopes, visible, Seq::empty(), name@) is Found,
        Expr::CompoundIdentifier { qualifier, name } => column_lookup(
            scopes,
            visible,
            strings_view(qualifier@),
            name@,
        ) is Found,
        Expr::Value(_) => true,
        Expr::Function(f) => exprs_lookups_found(scopes, visible, f.args@) && exprs_lookups_found(
            scopes,
            visible,
            f.over@,
        ),
        Expr::Composite { op, operands } => exprs_lookups_found(scopes, visible, operands@),
        _ => false,
    }
}

/// `expr_lookups_found` for each of the expressions `es`.
pub open spec fn exprs_lookups_found(scopes: Seq<ResolvedScope>, visible: Seq<usize>, es: Seq<Expr>) -> bool
    decreases es,
{
    es.len() > 0 ==> exprs_lookups_found(scopes, visible, es.drop_last()) && expr_lookups_found(
        scopes,
        visible,
        es.last(),
    )
}

/// `err` is what a failed lookup `l` of the column named `name` gives:
/// `ColumnNotFound` where no source provides it, `AmbiguousColumn` where
/// two sources of the deciding scope do.
pub open spec fn lookup_error(l: ColumnLookup, name: Seq<char>, err: ResolutionError) -> bool {
    ||| (l is NotFound && (err matches ResolutionError::ColumnNotFound(c) && c@ == name))
    ||| (l is Ambiguous && (err matches ResolutionError::AmbiguousColumn(c) && c@ == name))
}

/// `err` is an error that resolving `e` from the last scope of `visible` can
/// end in: the failed lookup of one of its column references, or an error
/// that one of its nested queries ends in, as `query_fails_with` says, in
/// the subquery scope opened for it.
pub open spec fn expr_fails_with(
    scopes: Seq<ResolvedScope>,
    visible: Seq<usize>,
    e: Expr,
    err: ResolutionError,
) -> bool
    decreases e,
{
    match e {
        Expr::Identifier(name) => lookup_error(
            column_lookup(scopes, visible, Seq::empty(), name@),
            name@,
            err,
        ),
        Expr::CompoundIdentifier { qualifier, name } => lookup_error(
            column_lookup(scopes, visible, strings_view(qualifier@), name@),
            name@,
            err,
        ),
        Expr::Value(_) => false,
        Expr::Subquery(q) => exists|n: usize|
            #[trigger] subquery_scope(scopes, visible, n) && query_fails_with(scopes, visible.push(n), *q, err),
        Expr::InSubquery { expr, subquery } => expr_fails_with(scopes, visible, *expr, err) || exists|n: usize|
            #[trigger] subquery_scope(scopes, visible, n) && query_fails_with(
                scopes,
                visible.push(n),
                *subquery,
                err,
            ),
        Expr::Exists(q) => exists|n: usize|
            #[trigger] subquery_scope(scopes, visible, n) && query_fails_with(scopes, visible.push(n), *q, err),
        Expr::Function(f) => exprs_fails_with(scopes, visible, f.args@, err) || exprs_fails_with(
            scopes,
            visible,
            f.over@,
            err,
        ),
        Expr::Composite { op, operands } => exprs_fails_with(scopes, visible, operands@, err),
    }
}

/// `err` is an error that resolving FROM item `f` in the scope that ends
/// `visible` can end in: a table name that names no visible CTE and that
/// the schema provider does not know; an error of a derived table's query
/// in the derived-table scope opened for it; a failed lookup in a table
/// function's arguments or a pivot's expressions, or an error of the table
/// a pivot reshapes; a FROM-item kind that is not supported.
pub open spec fn factor_fails_with(
    scopes: Seq<ResolvedScope>,
    visible: Seq<usize>,
    f: TableFactor,
    err: ResolutionError,
) -> bool
    decreases f,
{
    match f {
        TableFactor::Table { name, alias } => (err matches ResolutionError::TableNotFound(n) && strings_view(
            n@,
        ) == strings_view(name@)) && !(name@.len() == 1 && cte_lookup(scopes, visible, name@[0]@) is Some),
        TableFactor::Derived { lateral, subquery, alias } => exists|d: usize|
            #[trigger] opened_scope(scopes, visible, d, ScopeType::DerivedTable, lateral) && query_fails_with(
                scopes,
                visible.push(d),
                *subquery,
                err,
            ),
        TableFactor::Function { name, args, alias, columns } => exprs_fails_with(scopes, visible, args@, err),
        TableFactor::Pivot { table, exprs } => factor_fails_with(scopes, visible, *table, err)
            || exprs_fails_with(scopes, visible, exprs@, err),
        TableFactor::Unsupported(kind) => err matches ResolutionError::UnsupportedTableFactor(k) && k@
            == kind@,
    }
}

/// `err` is what resolving join `j` can end in: an error of its FROM item
/// (`factor_fails_with`) or a failed lookup in its `ON` condition.
pub open spec fn join_fails_with(
    scopes: Seq<ResolvedScope>,
    visible: Seq<usize>,
    j: Join,
    err: ResolutionError,
) -> bool
    decreases j,
{
    factor_fails_with(scopes, visible, j.relation, err) || match j.on {
        Some(x) => expr_fails_with(scopes, visible, x, err),
        None => false,
    }
}

/// `join_fails_with` for one of the joins `js`.
pub open spec fn joins_fails_with(
    scopes: Seq<ResolvedScope>,
    visible: Seq<usize>,
    js: Seq<Join>,
    err: ResolutionError,
) -> bool
    decreases js,
{
    js.len() > 0 && (joins_fails_with(scopes, visible, js.drop_last(), err) || join_fails_with(
        scopes,
        visible,
        js.last(),
        err,
    ))
}

/// `err` is what resolving FROM item `t` or one of its joins can end in.
pub open spec fn table_with_joins_fails_with(
    scopes: Seq<ResolvedScope>,
    visible: Seq<usize>,
    t: TableWithJoins,
    err: ResolutionError,
) -> bool
    decreases t,
{
    factor_fails_with(scopes, visible, t.relation, err) || joins_fails_with(scopes, visible, t.joins@, err)
}

/// `table_with_joins_fails_with` for one of the FROM items `ts`.
pub open spec fn from_fails_with(
    scopes: Seq<ResolvedScope>,
    visible: Seq<usize>,
    ts: Seq<TableWithJoins>,
    err: ResolutionError,
) -> bool
    decreases ts,
{
    ts.len() > 0 && (from_fails_with(scopes, visible, ts.drop_last(), err) || table_with_joins_fails_with(
        scopes,
        visible,
        ts.last(),
        err,
    ))
}

/// `err` is what resolving the query of one of the CTEs `cs` can end in, in
/// the CTE scope opened for it under the last scope of `visible`.
pub open spec fn ctes_fails_with(
    scopes: Seq<ResolvedScope>,
    visible: Seq<usize>,
    cs: Seq<Cte>,
    err: ResolutionError,
) -> bool
    decreases cs,
{
    cs.len() > 0 && (ctes_fails_with(scopes, visible, cs.drop_last(), err) || exists|m: usize|
        #[trigger] opened_scope(scopes, visible, m, ScopeType::Cte, false) && query_fails_with(
            scopes,
            visible.push(m),
            *cs.last().query,
            err,
        ))
}

/// One join that can fail with `err` makes the list able to.
pub proof fn lemma_joins_fails_with_at(
    scopes: Seq<ResolvedScope>,
    visible: Seq<usize>,
    js: Seq<Join>,
    i: int,
    err: ResolutionError,
)
    requires
        0 <= i < js.len(),
        join_fails_with(scopes, visible, js[i], err),
    ensures
        joins_fails_with(scopes, visible, js, err),
    decreases js.len(),
{
    if i < js.len() - 1 {
        lemma_joins_fails_with_at(scopes, visible, js.drop_last(), i, err);
    }
}

/// One FROM item that can fail with `err` makes the list able to.
pub proof fn lemma_from_fails_with_at(
    scopes: Seq<ResolvedScope>,
    visible: Seq<usize>,
    ts: Seq<TableWithJoins>,
    i: int,
    err: ResolutionError,
)
    requires
        0 <= i < ts.len(),
        table_with_joins_fails_with(scopes, visible, ts[i], err),
    ensures
        from_fails_with(scopes, visible, ts, err),
    decreases ts.len(),
{
    if i < ts.len() - 1 {
        lemma_from_fails_with_at(scopes, visible, ts.drop_last(), i, err);
    }
}

/// One CTE that can fail with `err` in its scope makes the list able to.
pub proof fn lemma_ctes_fails_with_at(
    scopes: Seq<ResolvedScope>,
    visible: Seq<usize>,
    cs: Seq<Cte>,
    i: int,
    m: usize,
    err: ResolutionError,
)
    requires
        0 <= i < cs.len(),
        opened_scope(scopes, visible, m, ScopeType::Cte, false),
        query_fails_with(scopes, visible.push(m), *cs[i].query, err),
    ensures
        ctes_fails_with(scopes, visible, cs, err),
    decreases cs.len(),
{
    if i < cs.len() - 1 {
        lemma_ctes_fails_with_at(scopes, visible, cs.drop_last(), i, m, err);
    }
}

/// `expr_fails_with` for one of the expressions `es`.
pub open spec fn exprs_fails_with(
    scopes: Seq<ResolvedScope>,
    visible: Seq<usize>,
    es: Seq<Expr>,
    err: ResolutionError,
) -> bool
    decreases es,
{
    es.len() > 0 && (exprs_fails_with(scopes, visible, es.drop_last(), err) || expr_fails_with(
        scopes,
        visible,
        es.last(),
        err,
    ))
}

/// An expression without nested queries can fail only by a failed lookup.
pub proof fn lemma_plain_fails_by_lookup(
    scopes: Seq<ResolvedScope>,
    visible: Seq<usize>,
    e: Expr,
    err: ResolutionError,
)
    requires
        expr_plain(e),
        expr_fails_with(scopes, visible, e, err),
    ensures
        err is ColumnNotFound || err is AmbiguousColumn,
    decreases e,
{
    match e {
        Expr::Function(f) => {
            if exprs_fails_with(scopes, visible, f.args@, err) {
                lemma_plain_list_fails_by_lookup(scopes, visible, f.args@, err);
            } else {
                lemma_plain_list_fails_by_lookup(scopes, visible, f.over@, err);
            }
        },
        Expr::Composite { op, operands } => {
            lemma_plain_list_fails_by_lookup(scopes, visible, operands@, err);
        },
        _ => {},
    }
}

/// `lemma_plain_fails_by_lookup` for lists.
pub proof fn lemma_plain_list_fails_by_lookup(
    scopes: Seq<ResolvedScope>,
    visible: Seq<usize>,
    es: Seq<Expr>,
    err: ResolutionError,
)
    requires
        exprs_plain(es),
        exprs_fails_with(scopes, visible, es, err),
    ensures
        err is ColumnNotFound || err is AmbiguousColumn,
    decreases es,
{
    if exprs_fails_with(scopes, visible, es.drop_last(), err) {
        lemma_plain_list_fails_by_lookup(scopes, visible, es.drop_last(), err);
    } else {
        lemma_plain_fails_by_lookup(scopes, visible, es.last(), err);
    }
}

/// One element that can fail with `err` makes the list able to.
pub proof fn lemma_exprs_fails_with_at(
    scopes: Seq<ResolvedScope>,
    visible: Seq<usize>,
    es: Seq<Expr>,
    i: int,
    err: ResolutionError,
)
    requires
        0 <= i < es.len(),
        expr_fails_with(scopes, visible, es[i], err),
    ensures
        exprs_fails_with(scopes, visible, es, err),
    decreases es.len(),
{
    if i < es.len() - 1 {
        lemma_exprs_fails_with_at(scopes, visible, es.drop_last(), i, err);
    }
}

/// A list without nested queries holds none in any element, and any prefix
/// of it holds none either.
pub proof fn lemma_exprs_plain_at(es: Seq<Expr>, i: int)
    requires
        0 <= i < es.len(),
        exprs_plain(es),
    ensures
        expr_plain(es[i]),
        exprs_plain(es.take(i + 1)),
    decreases es.len(),
{
    if i < es.len() - 1 {
        lemma_exprs_plain_at(es.drop_last(), i);
        assert(es.drop_last().take(i + 1) =~= es.take(i + 1));
    } else {
        assert(es.take(i + 1) =~= es);
    }
}

/// Every lookup of a list succeeds only where every lookup of each prefix
/// does.
pub proof fn lemma_exprs_found_prefix(scopes: Seq<ResolvedScope>, visible: Seq<usize>, es: Seq<Expr>, k: int)
    requires
        0 <= k <= es.len(),
        exprs_lookups_found(scopes, visible, es),
    ensures
        exprs_lookups_found(scopes, visible, es.take(k)),
    decreases es.len(),
{
    if k < es.len() {
        lemma_exprs_found_prefix(scopes, visible, es.drop_last(), k);
        assert(es.drop_last().take(k) =~= es.take(k));
    } else {
        assert(es.take(k) =~= es);
    }
}

/// Extending a prefix whose lookups all succeed by one such element.
pub proof fn lemma_exprs_found_push(scopes: Seq<ResolvedScope>, visible: Seq<usize>, es: Seq<Expr>, i: int)
    requires
        0 <= i < es.len(),
        exprs_lookups_found(scopes, visible, es.take(i)),
        expr_lookups_found(scopes, visible, es[i]),
    ensures
        exprs_lookups_found(scopes, visible, es.take(i + 1)),
{
    assert(es.take(i + 1).drop_last() =~= es.take(i));
}

/// What the lookups of an expression find, and what an expression without
/// nested queries can fail with, read only what `lookups_kept` keeps.
pub proof fn lemma_expr_fails_with_stable(
    s1: Seq<ResolvedScope>,
    s2: Seq<ResolvedScope>,
    visible: Seq<usize>,
    e: Expr,
    err: ResolutionError,
)
    requires
        lookups_kept(s1, s2),
        forall|j: int| 0 <= j < visible.len() ==> #[trigger] visible[j] < s1.len(),
    ensures
        expr_plain(e) ==> expr_fails_with(s1, visible, e, err) == expr_fails_with(s2, visible, e, err),
        expr_lookups_found(s1, visible, e) == expr_lookups_found(s2, visible, e),
    decreases e,
{
    match e {
        Expr::Identifier(name) => {
            lemma_lookup_from_stable(s1, s2, visible, visible.len() - 1, Seq::empty(), name@);
        },
        Expr::CompoundIdentifier { qualifier, name } => {
            lemma_lookup_from_stable(s1, s2, visible, visible.len() - 1, strings_view(qualifier@), name@);
        },
        Expr::Function(f) => {
            lemma_exprs_fails_with_stable(s1, s2, visible, f.args@, err);
            lemma_exprs_fails_with_stable(s1, s2, visible, f.over@, err);
        },
        Expr::Composite { op, operands } => {
            lemma_exprs_fails_with_stable(s1, s2, visible, operands@, err);
        },
        _ => {},
    }
}

/// `lemma_expr_fails_with_stable` for lists.
pub proof fn lemma_exprs_fails_with_stable(
    s1: Seq<ResolvedScope>,
    s2: Seq<ResolvedScope>,
    visible: Seq<usize>,
    es: Seq<Expr>,
    err: ResolutionError,
)
    requires
        lookups_kept(s1, s2),
        forall|j: int| 0 <= j < visible.len() ==> #[trigger] visible[j] < s1.len(),
    ensures
        exprs_plain(es) ==> exprs_fails_with(s1, visible, es, err) == exprs_fails_with(s2, visible, es, err),
        exprs_lookups_found(s1, visible, es) == exprs_lookups_found(s2, visible, es),
    decreases es,
{
    if es.len() > 0 {
        lemma_exprs_fails_with_stable(s1, s2, visible, es.drop_last(), err);
        lemma_expr_fails_with_stable(s1, s2, visible, es.last(), err);
    }
}

/// Extending a resolved prefix by one resolved element.
pub proof fn lemma_exprs_resolved_push(
    scopes: Seq<ResolvedScope>,
    visible: Seq<usize>,
    es: Seq<Expr>,
    rs: Seq<Expr>,
    i: int,
)
    requires
        0 <= i < es.len(),
        i < rs.len(),
        exprs_resolved(scopes, visible, es.take(i), rs.take(i)),
        expr_resolved(scopes, visible, es[i], rs[i]),
    ensures
        exprs_resolved(scopes, visible, es.take(i + 1), rs.take(i + 1)),
{
    assert(es.take(i + 1).drop_last() =~= es.take(i));
    assert(rs.take(i + 1).drop_last() =~= rs.take(i));
}

/// The references of a list grow by those of its next element.
pub proof fn lemma_exprs_refs_push(es: Seq<Expr>, i: int)
    requires
        0 <= i < es.len(),
    ensures
        exprs_refs(es.take(i + 1)) == exprs_refs(es.take(i)).union(expr_refs(es[i])),
{
    assert(es.take(i + 1).drop_last() =~= es.take(i));
}

/// The references of a WITH list grow by those of its next CTE.
pub proof fn lemma_ctes_refs_push(cs: Seq<Cte>, i: int)
    requires
        0 <= i < cs.len(),
    ensures
        ctes_refs(cs.take(i + 1)) == ctes_refs(cs.take(i)).union(query_refs(*cs[i].query)),
{
    assert(cs.take(i + 1).drop_last() =~= cs.take(i));
}

/// The references of a SELECT list grow by those of its next item.
pub proof fn lemma_items_refs_push(items: Seq<SelectItem>, i: int)
    requires
        0 <= i < items.len(),
    ensures
        items_refs(items.take(i + 1)) == items_refs(items.take(i)).union(item_refs(items[i])),
{
    assert(items.take(i + 1).drop_last() =~= items.take(i));
}

/// The references of a FROM list grow by those of its next item.
pub proof fn lemma_from_refs_push(ts: Seq<TableWithJoins>, i: int)
    requires
        0 <= i < ts.len(),
    ensures
        from_refs(ts.take(i + 1)) == from_refs(ts.take(i)).union(table_with_joins_refs(ts[i])),
{
    assert(ts.take(i + 1).drop_last() =~= ts.take(i));
}

/// The references of a list of joins grow by those of its next join.
pub proof fn lemma_joins_refs_push(js: Seq<Join>, i: int)
    requires
        0 <= i < js.len(),
    ensures
        joins_refs(js.take(i + 1)) == joins_refs(js.take(i)).union(join_refs(js[i])),
{
    assert(js.take(i + 1).drop_last() =~= js.take(i));
}

/// As `lemma_expr_resolved_stable`, where scope `x`, which no lookup
/// chain reaches, may have changed its sources.
pub proof fn lemma_expr_resolved_stable_except(
    s1: Seq<ResolvedScope>,
    s2: Seq<ResolvedScope>,
    visible: Seq<usize>,
    e: Expr,
    r: Expr,
    x: int,
)
    requires
        selected_kept_above(s1, s2, visible.last() as int),
        lookups_kept_except(s1, s2, x),
        x >= 0 ==> shielded(s1, visible, x) && parents_below(s1),
        forall|j: int| 0 <= j < visible.len() ==> #[trigger] visible[j] < s1.len(),
    ensures
        expr_resolved(s1, visible, e, r) ==> expr_resolved(s2, visible, e, r),
    decreases e, 0nat,
{
    let p = choose|p: int| #[trigger] barrier_above(s1, visible, x, p);
    match e {
        Expr::Identifier(name) => {
            lemma_lookup_from_stable_except(s1, s2, visible, visible.len() - 1, Seq::empty(), name@, x, p);
        },
        Expr::CompoundIdentifier { qualifier, name } => {
            lemma_lookup_from_stable_except(
                s1,
                s2,
                visible,
                visible.len() - 1,
                strings_view(qualifier@),
                name@,
                x,
                p,
            );
        },
        Expr::Subquery(q) => {
            if let Expr::Subquery(rq) = r {
                lemma_nested_resolved_stable_except(s1, s2, visible, *q, *rq, x);
            }
        },
        Expr::Exists(q) => {
            if let Expr::Exists(rq) = r {
                lemma_nested_resolved_stable_except(s1, s2, visible, *q, *rq, x);
            }
        },
        Expr::InSubquery { expr, subquery } => {
            if let Expr::InSubquery { expr: r_expr, subquery: r_sub } = r {
                lemma_expr_resolved_stable_except(s1, s2, visible, *expr, *r_expr, x);
                lemma_nested_resolved_stable_except(s1, s2, visible, *subquery, *r_sub, x);
            }
        },
        Expr::Function(f) => {
            if let Expr::Function(rf) = r {
                lemma_exprs_resolved_stable_except(s1, s2, visible, f.args@, rf.args@, x);
                lemma_exprs_resolved_stable_except(s1, s2, visible, f.over@, rf.over@, x);
            }
        },
        Expr::Composite { op, operands } => {
            if let Expr::Composite { op: r_op, operands: r_operands } = r {
                lemma_exprs_resolved_stable_except(s1, s2, visible, operands@, r_operands@, x);
            }
        },
        _ => {},
    }
}

/// A nested query resolved in a subquery scope of `s1` stays resolved in
/// `s2`, where scope `x`, which no lookup chain reaches, may have changed its
/// sources.
pub proof fn lemma_nested_resolved_stable_except(
    s1: Seq<ResolvedScope>,
    s2: Seq<ResolvedScope>,
    visible: Seq<usize>,
    q: Query,
    rq: Query,
    x: int,
)
    requires
        selected_kept_above(s1, s2, visible.last() as int),
        lookups_kept_except(s1, s2, x),
        x >= 0 ==> shielded(s1, visible, x) && parents_below(s1),
        forall|j: int| 0 <= j < visible.len() ==> #[trigger] visible[j] < s1.len(),
    ensures
        (exists|n: usize| #[trigger] subquery_scope(s1, visible, n) && query_body_resolved(
            s1,
            visible.push(n),
            q,
            rq,
        )) ==> (exists|n: usize| #[trigger] subquery_scope(s2, visible, n) && query_body_resolved(
            s2,
            visible.push(n),
            q,
            rq,
        )),
    decreases q, 1nat,
{
    if exists|n: usize| #[trigger] subquery_scope(s1, visible, n) && query_body_resolved(
        s1,
        visible.push(n),
        q,
        rq,
    ) {
        let n = choose|n: usize| #[trigger] subquery_scope(s1, visible, n) && query_body_resolved(
            s1,
            visible.push(n),
            q,
            rq,
        );
        let vn = visible.push(n);
        assert forall|j: int| 0 <= j < vn.len() implies #[trigger] vn[j] < s1.len() by {
            if j < visible.len() {
                assert(vn[j] == visible[j]);
            }
        }
        lemma_chain_push_above(s1, visible, n, x);
        lemma_query_body_resolved_stable_except(s1, s2, vn, q, rq, x);
        assert(subquery_scope(s2, visible, n));
    }
}

/// As `lemma_exprs_resolved_stable`, where scope `x`, which no lookup
/// chain reaches, may have changed its sources.
pub proof fn lemma_exprs_resolved_stable_except(
    s1: Seq<ResolvedScope>,
    s2: Seq<ResolvedScope>,
    visible: Seq<usize>,
    es: Seq<Expr>,
    rs: Seq<Expr>,
    x: int,
)
    requires
        selected_kept_above(s1, s2, visible.last() as int),
        lookups_kept_except(s1, s2, x),
        x >= 0 ==> shielded(s1, visible, x) && parents_below(s1),
        forall|j: int| 0 <= j < visible.len() ==> #[trigger] visible[j] < s1.len(),
    ensures
        exprs_resolved(s1, visible, es, rs) ==> exprs_resolved(s2, visible, es, rs),
    decreases es, 0nat,
{
    if es.len() > 0 && es.len() == rs.len() {
        lemma_exprs_resolved_stable_except(s1, s2, visible, es.drop_last(), rs.drop_last(), x);
        lemma_expr_resolved_stable_except(s1, s2, visible, es.last(), rs.last(), x);
    }
}

/// As `lemma_opt_expr_resolved_stable`, where scope `x`, which no lookup
/// chain reaches, may have changed its sources.
pub proof fn lemma_opt_expr_resolved_stable_except(
    s1: Seq<ResolvedScope>,
    s2: Seq<ResolvedScope>,
    visible: Seq<usize>,
    o: Option<Expr>,
    n: Option<Expr>,
    x: int,
)
    requires
        selected_kept_above(s1, s2, visible.last() as int),
        lookups_kept_except(s1, s2, x),
        x >= 0 ==> shielded(s1, visible, x) && parents_below(s1),
        forall|j: int| 0 <= j < visible.len() ==> #[trigger] visible[j] < s1.len(),
    ensures
        opt_expr_resolved(s1, visible, o, n) ==> opt_expr_resolved(s2, visible, o, n),
    decreases o, 0nat,
{
    if let (Some(e), Some(ne)) = (o, n) {
        lemma_expr_resolved_stable_except(s1, s2, visible, e, ne, x);
    }
}

/// A resolved SELECT item stays resolved in `s2`, where scope `x`, which no
/// lookup chain reaches, may have changed its sources.
pub proof fn lemma_item_resolved_stable_except(
    s1: Seq<ResolvedScope>,
    s2: Seq<ResolvedScope>,
    visible: Seq<usize>,
    o: SelectItem,
    n: SelectItem,
    x: int,
)
    requires
        selected_kept_above(s1, s2, visible.last() as int),
        lookups_kept_except(s1, s2, x),
        x >= 0 ==> shielded(s1, visible, x) && parents_below(s1),
        forall|j: int| 0 <= j < visible.len() ==> #[trigger] visible[j] < s1.len(),
    ensures
        item_resolved(s1, visible, o, n) ==> item_resolved(s2, visible, o, n),
    decreases o, 0nat,
{
    match o {
        SelectItem::UnnamedExpr(e) => {
            if let SelectItem::UnnamedExpr(ne) = n {
                lemma_expr_resolved_stable_except(s1, s2, visible, e, ne, x);
            }
        },
        SelectItem::ExprWithAlias { expr, .. } => {
            if let SelectItem::ExprWithAlias { expr: ne, .. } = n {
                lemma_expr_resolved_stable_except(s1, s2, visible, expr, ne, x);
            }
        },
        _ => {},
    }
}

/// As `lemma_items_resolved_stable`, where scope `x`, which no lookup
/// chain reaches, may have changed its sources.
pub proof fn lemma_items_resolved_stable_except(
    s1: Seq<ResolvedScope>,
    s2: Seq<ResolvedScope>,
    visible: Seq<usize>,
    os: Seq<SelectItem>,
    ns: Seq<SelectItem>,
    x: int,
)
    requires
        selected_kept_above(s1, s2, visible.last() as int),
        lookups_kept_except(s1, s2, x),
        x >= 0 ==> shielded(s1, visible, x) && parents_below(s1),
        forall|j: int| 0 <= j < visible.len() ==> #[trigger] visible[j] < s1.len(),
    ensures
        items_resolved(s1, visible, os, ns) ==> items_resolved(s2, visible, os, ns),
    decreases os, 0nat,
{
    if os.len() > 0 && os.len() == ns.len() {
        lemma_items_resolved_stable_except(s1, s2, visible, os.drop_last(), ns.drop_last(), x);
        lemma_item_resolved_stable_except(s1, s2, visible, os.last(), ns.last(), x);
    }
}

/// A resolved SELECT block stays resolved in `s2`, where scope `x`, which no
/// lookup chain reaches, may have changed its sources.
pub proof fn lemma_select_resolved_stable_except(
    s1: Seq<ResolvedScope>,
    s2: Seq<ResolvedScope>,
    visible: Seq<usize>,
    o: Select,
    n: Select,
    x: int,
)
    requires
        selected_kept_above(s1, s2, visible.last() as int),
        visible.len() > 0,
        lookups_kept_except(s1, s2, x),
        x >= 0 ==> shielded(s1, visible, x) && parents_below(s1),
        forall|j: int| 0 <= j < visible.len() ==> #[trigger] visible[j] < s1.len(),
    ensures
        select_resolved(s1, visible, o, n) ==> select_resolved(s2, visible, o, n),
    decreases o, 0nat,
{
    if x >= 0 {
        let p = choose|p: int| #[trigger] barrier_above(s1, visible, x, p);
        assert(visible[visible.len() - 1] > x);
    }
    let a = visible.last() as int;
    assert(visible[visible.len() - 1] < s1.len());
    if x >= 0 {
        assert(a != x);
    }
    assert(s2[a].sources == s1[a].sources);
    lemma_from_resolved_stable_except(
        s1,
        s2,
        visible,
        s1[a].sources.entries@.len() - from_factors(o.from@).len(),
        o.from@,
        n.from@,
        x,
    );
    lemma_items_resolved_stable_except(s1, s2, visible, o.projection@, n.projection@, x);
    lemma_opt_expr_resolved_stable_except(s1, s2, visible, o.selection, n.selection, x);
    lemma_exprs_resolved_stable_except(s1, s2, visible, o.group_by@, n.group_by@, x);
    lemma_opt_expr_resolved_stable_except(s1, s2, visible, o.having, n.having, x);
}

/// As `lemma_set_expr_resolved_stable`, where scope `x`, which no lookup
/// chain reaches, may have changed its sources.
pub proof fn lemma_set_expr_resolved_stable_except(
    s1: Seq<ResolvedScope>,
    s2: Seq<ResolvedScope>,
    visible: Seq<usize>,
    o: SetExpr,
    n: SetExpr,
    x: int,
)
    requires
        selected_kept_above(s1, s2, visible.last() as int),
        visible.len() > 0,
        lookups_kept_except(s1, s2, x),
        x >= 0 ==> shielded(s1, visible, x) && parents_below(s1),
        forall|j: int| 0 <= j < visible.len() ==> #[trigger] visible[j] < s1.len(),
    ensures
        set_expr_select_resolved(s1, visible, o, n) ==> set_expr_select_resolved(s2, visible, o, n),
    decreases o, 0nat,
{
    if set_expr_select_resolved(s1, visible, o, n) {
        match o {
            SetExpr::Select(s) => {
                lemma_select_resolved_stable_except(s1, s2, visible, *s, *n->Select_0, x);
            },
            SetExpr::Query(q) => {
                lemma_nested_resolved_stable_except(s1, s2, visible, *q, *n->Query_0, x);
            },
            SetExpr::SetOperation { left, right } => {
                let nl = *n->SetOperation_left;
                let nr = *n->SetOperation_right;
                let m1 = choose|m: usize|
                    #[trigger] opened_scope(s1, visible, m, ScopeType::SetOpBranch, true)
                        && set_expr_select_resolved(s1, visible.push(m), *left, nl);
                let m2 = choose|m: usize|
                    #[trigger] opened_scope(s1, visible, m, ScopeType::SetOpBranch, true)
                        && set_expr_select_resolved(s1, visible.push(m), *right, nr);
                let v1 = visible.push(m1);
                let v2 = visible.push(m2);
                assert forall|j: int| 0 <= j < v1.len() implies #[trigger] v1[j] < s1.len() by {
                    if j < visible.len() {
                        assert(v1[j] == visible[j]);
                    }
                }
                assert forall|j: int| 0 <= j < v2.len() implies #[trigger] v2[j] < s1.len() by {
                    if j < visible.len() {
                        assert(v2[j] == visible[j]);
                    }
                }
                lemma_chain_push_above(s1, visible, m1, x);
                lemma_chain_push_above(s1, visible, m2, x);
                lemma_set_expr_resolved_stable_except(s1, s2, v1, *left, nl, x);
                lemma_set_expr_resolved_stable_except(s1, s2, v2, *right, nr, x);
                assert(opened_scope(s2, visible, m1, ScopeType::SetOpBranch, true));
                assert(opened_scope(s2, visible, m2, ScopeType::SetOpBranch, true));
            },
        }
    }
}

/// As `lemma_query_body_resolved_stable`, where scope `x`, which no lookup
/// chain reaches, may have changed its sources.
pub proof fn lemma_query_body_resolved_stable_except(
    s1: Seq<ResolvedScope>,
    s2: Seq<ResolvedScope>,
    visible: Seq<usize>,
    o: Query,
    n: Query,
    x: int,
)
    requires
        selected_kept_above(s1, s2, visible.last() as int),
        visible.len() > 0,
        lookups_kept_except(s1, s2, x),
        x >= 0 ==> shielded(s1, visible, x) && parents_below(s1),
        forall|j: int| 0 <= j < visible.len() ==> #[trigger] visible[j] < s1.len(),
    ensures
        query_body_resolved(s1, visible, o, n) ==> query_body_resolved(s2, visible, o, n),
    decreases o, 0nat,
{
    if x >= 0 {
        let p = choose|p: int| #[trigger] barrier_above(s1, visible, x, p);
        assert(visible[visible.len() - 1] > x);
    }
    let a = visible.last() as int;
    assert(visible[visible.len() - 1] < s1.len());
    if x >= 0 && x < s1.len() {
        assert(s2[x].ctes@.take(s1[x].ctes@.len() as int) =~= s1[x].ctes@);
    }
    assert(bindings_grown_except(s1, s2, x));
    lemma_ctes_resolved_stable_except(
        s1,
        s2,
        visible,
        s1[a].ctes@.len() - o.with@.len(),
        o.with@,
        n.with@,
        x,
    );
    lemma_set_expr_resolved_stable_except(s1, s2, visible, *o.body, *n.body, x);
    lemma_exprs_resolved_stable_except(s1, s2, visible, o.order_by@, n.order_by@, x);
}


/// A WITH list resolved in `s1` stays resolved in `s2`, where scope `x` may
/// have changed its sources: no CTE scope lets a lookup through to it. If
/// `x` is the scope the list is bound in, it may also have gained bindings
/// after the ones it held: each CTE's query speaks only of those before its
/// own.
pub proof fn lemma_ctes_resolved_stable_except(
    s1: Seq<ResolvedScope>,
    s2: Seq<ResolvedScope>,
    visible: Seq<usize>,
    base: int,
    os: Seq<Cte>,
    ns: Seq<Cte>,
    x: int,
)
    requires
        selected_kept_above(s1, s2, visible.last() as int),
        bindings_grown_except(s1, s2, x),
        visible.len() > 0,
        x >= 0 ==> visible.last() >= x && parents_below(s1) && (x != visible.last() ==> s2[x].ctes == s1[x].ctes),
        forall|j: int| 0 <= j < visible.len() ==> #[trigger] visible[j] < s1.len(),
    ensures
        ctes_resolved(s1, visible, base, os, ns) ==> ctes_resolved(s2, visible, base, os, ns),
    decreases os, 0nat,
{
    if ctes_resolved(s1, visible, base, os, ns) && os.len() > 0 {
        lemma_ctes_resolved_stable_except(s1, s2, visible, base, os.drop_last(), ns.drop_last(), x);
        let a = visible.last() as int;
        let k = base + os.len() - 1;
        assert(visible[visible.len() - 1] < s1.len());
        let sa = choose|sa: ResolvedScope|
            #[trigger] earlier_bindings(s1[a], k, sa) && exists|m: usize|
                #[trigger] opened_scope(s1.update(a, sa), visible, m, ScopeType::Cte, false)
                    && query_body_resolved(s1.update(a, sa), visible.push(m), *os.last().query, *ns.last().query);
        let t1 = s1.update(a, sa);
        let t2 = s2.update(a, sa);
        let m = choose|m: usize|
            #[trigger] opened_scope(t1, visible, m, ScopeType::Cte, false) && query_body_resolved(
                t1,
                visible.push(m),
                *os.last().query,
                *ns.last().query,
            );
        let x2 = if x == a { -1 } else { x };
        assert forall|i: int| 0 <= i < t1.len() implies (#[trigger] t2[i]).allow_lateral == t1[i].allow_lateral
            && t2[i].parent == t1[i].parent && t2[i].scope_type == t1[i].scope_type && t2[i].ctes == t1[i].ctes
            && (i != x2 ==> t2[i].sources == t1[i].sources) by {
            if i != a {
                assert(s2[i].allow_lateral == s1[i].allow_lateral);
            }
        }
        assert(lookups_kept_except(t1, t2, x2));
        let vm = visible.push(m);
        assert forall|j: int| 0 <= j < vm.len() implies #[trigger] vm[j] < t1.len() by {
            if j < visible.len() {
                assert(vm[j] == visible[j]);
            }
        }
        if x2 >= 0 {
            assert(barrier_above(t1, vm, x2, visible.len() as int));
            assert forall|i: int| 0 < i < t1.len() implies #[trigger] t1[i].parent < i by {
                assert(s1[i].parent < i);
            }
        }
        lemma_query_body_resolved_stable_except(t1, t2, vm, *os.last().query, *ns.last().query, x2);
        assert(opened_scope(t2, visible, m, ScopeType::Cte, false));
        if x == a {
            let l1 = s1[a].ctes@.len() as int;
            assert(s2[a].ctes@.take(k) =~= s2[a].ctes@.take(l1).take(k));
        }
        assert(earlier_bindings(s2[a], k, sa));
    }
}

/// A change from `s1` to `s2`, keeping what lookups read except of scope
/// `x`, that a lookup along `visible` does not see, or sees as new sources
/// after the old ones of its last scope.
pub open spec fn change_seen_as_growth(s1: Seq<ResolvedScope>, s2: Seq<ResolvedScope>, visible: Seq<usize>, x: int) -> bool {
    &&& lookups_kept_except(s1, s2, x)
    &&& selected_kept_above(s1, s2, visible.last() as int)
    &&& visible.len() > 0
    &&& forall|j: int| 0 <= j < visible.len() ==> #[trigger] visible[j] < s1.len()
    &&& x >= 0 ==> parents_below(s1) && (shielded(s1, visible, x) || (x == visible.last() && sources_extended(
        s1[x],
        s2[x],
    )))
}

/// Seen from an earlier state `sa` of the last scope of `visible`, such a
/// change keeps that state as it was, and is one that no lookup along
/// `visible` reaches, or none at all.
pub proof fn lemma_earlier_arena_stable(
    s1: Seq<ResolvedScope>,
    s2: Seq<ResolvedScope>,
    visible: Seq<usize>,
    x: int,
    cap: int,
    sa: ResolvedScope,
)
    requires
        change_seen_as_growth(s1, s2, visible, x),
        earlier_scope(s1[visible.last() as int], cap, sa),
    ensures
        earlier_scope(s2[visible.last() as int], cap, sa),
        lookups_kept_except(
            s1.update(visible.last() as int, sa),
            s2.update(visible.last() as int, sa),
            if x == visible.last() { -1 } else { x },
        ),
        (x >= 0 && x != visible.last()) ==> shielded(s1.update(visible.last() as int, sa), visible, x)
            && parents_below(s1.update(visible.last() as int, sa)),
        forall|j: int| 0 <= j < visible.len() ==> #[trigger] visible[j] < s1.update(visible.last() as int, sa).len(),
        selected_kept_above(s1.update(visible.last() as int, sa), s2.update(visible.last() as int, sa), visible.last() as int),
{
    let a = visible.last() as int;
    assert(visible[visible.len() - 1] < s1.len());
    let t1 = s1.update(a, sa);
    let t2 = s2.update(a, sa);
    if x == a {
        let l1 = s1[a].sources.entries@.len() as int;
        assert(s2[a].sources.entries@.take(cap) =~= s2[a].sources.entries@.take(l1).take(cap));
    } else {
        assert(s2[a].sources == s1[a].sources);
        if x >= 0 {
            let p = choose|p: int| #[trigger] barrier_above(s1, visible, x, p);
            assert(visible[p] < s1.len());
            assert(barrier_above(t1, visible, x, p));
            assert forall|i: int| 0 < i < t1.len() implies #[trigger] t1[i].parent < i by {
                assert(s1[i].parent < i);
            }
        }
    }
    assert forall|i: int| 0 <= i < t1.len() implies (#[trigger] t2[i]).allow_lateral == t1[i].allow_lateral
        && t2[i].parent == t1[i].parent && t2[i].scope_type == t1[i].scope_type && t2[i].ctes == t1[i].ctes
        && (i != (if x == a {
        -1
    } else {
        x
    }) ==> t2[i].sources == t1[i].sources) by {
        if i != a {
            assert(s2[i].allow_lateral == s1[i].allow_lateral);
        }
    }
}

/// A FROM item resolved in `s1` stays resolved in `s2`, where scope `x` may
/// have changed its sources: no lookup that the item's resolution spoke of
/// reaches `x`, or `x` is the scope the item is registered in and has only
/// gained sources.
pub proof fn lemma_factor_resolved_stable_except(
    s1: Seq<ResolvedScope>,
    s2: Seq<ResolvedScope>,
    visible: Seq<usize>,
    cap: int,
    o: TableFactor,
    n: TableFactor,
    x: int,
)
    requires
        change_seen_as_growth(s1, s2, visible, x),
    ensures
        factor_resolved(s1, visible, cap, o, n) ==> factor_resolved(s2, visible, cap, o, n),
    decreases o, 0nat,
{
    let a = visible.last() as int;
    let x2 = if x == a { -1 } else { x };
    if factor_resolved(s1, visible, cap, o, n) {
        if x >= 0 && x != a {
            let p = choose|p: int| #[trigger] barrier_above(s1, visible, x, p);
            assert(visible[visible.len() - 1] > x);
        }
        assert(visible[visible.len() - 1] < s1.len());
        if x == a {
            let l1 = s1[a].sources.entries@.len() as int;
            assert(s2[a].sources.entries@.take(l1)[cap] == s2[a].sources.entries@[cap]);
        }
        assert(s2[a].sources.entries@[cap] == s1[a].sources.entries@[cap]);
        if let TableFactor::Table { name, .. } = o {
            if name@.len() == 1 {
                lemma_cte_lookup_from_stable(s1, s2, visible, visible.len() - 1, name@[0]@);
            }
        }
        match o {
            TableFactor::Derived { lateral, subquery, alias } => {
                let ns = *n->Derived_subquery;
                let d = s1[a].sources.entries@[cap].source->Derived_0.scope_id;
                if !lateral {
                    let vd = visible.push(d);
                    assert forall|j: int| 0 <= j < vd.len() implies #[trigger] vd[j] < s1.len() by {
                        if j < visible.len() {
                            assert(vd[j] == visible[j]);
                        }
                    }
                    if x >= 0 {
                        assert(barrier_above(s1, vd, x, visible.len() as int));
                    }
                    lemma_query_body_resolved_stable_except(s1, s2, vd, *subquery, ns, x);
                    assert(opened_scope(s2, visible, d, ScopeType::DerivedTable, false));
                } else {
                    let sa = choose|sa: ResolvedScope|
                        #[trigger] earlier_scope(s1[a], cap, sa) && opened_scope(
                            s1.update(a, sa),
                            visible,
                            d,
                            ScopeType::DerivedTable,
                            true,
                        ) && query_body_resolved(s1.update(a, sa), visible.push(d), *subquery, ns);
                    let t1 = s1.update(a, sa);
                    let t2 = s2.update(a, sa);
                    lemma_earlier_arena_stable(s1, s2, visible, x, cap, sa);
                    let vd = visible.push(d);
                    assert forall|j: int| 0 <= j < vd.len() implies #[trigger] vd[j] < t1.len() by {
                        if j < visible.len() {
                            assert(vd[j] == visible[j]);
                        }
                    }
                    lemma_chain_push_above(t1, visible, d, x2);
                    lemma_query_body_resolved_stable_except(t1, t2, vd, *subquery, ns, x2);
                    assert(opened_scope(t2, visible, d, ScopeType::DerivedTable, true));
                    assert(earlier_scope(s2[a], cap, sa));
                }
            },
            TableFactor::Function { name, args, alias, columns } => {
                let na = n->Function_args;
                let sa = choose|sa: ResolvedScope|
                    #[trigger] earlier_scope(s1[a], cap, sa) && exprs_resolved(s1.update(a, sa), visible, args@, na@);
                lemma_earlier_arena_stable(s1, s2, visible, x, cap, sa);
                lemma_exprs_resolved_stable_except(s1.update(a, sa), s2.update(a, sa), visible, args@, na@, x2);
                assert(earlier_scope(s2[a], cap, sa));
            },
            TableFactor::Pivot { table, exprs } => {
                let ne = n->Pivot_exprs;
                lemma_factor_resolved_stable_except(s1, s2, visible, cap, *table, *n->Pivot_table, x);
                let sa = choose|sa: ResolvedScope|
                    #[trigger] earlier_scope(s1[a], cap + 1, sa) && exprs_resolved(s1.update(a, sa), visible, exprs@, ne@);
                lemma_earlier_arena_stable(s1, s2, visible, x, cap + 1, sa);
                lemma_exprs_resolved_stable_except(s1.update(a, sa), s2.update(a, sa), visible, exprs@, ne@, x2);
                assert(earlier_scope(s2[a], cap + 1, sa));
            },
            _ => {},
        }
    }
}

/// `lemma_factor_resolved_stable_except` for an `ON` condition.
pub proof fn lemma_on_resolved_stable_except(
    s1: Seq<ResolvedScope>,
    s2: Seq<ResolvedScope>,
    visible: Seq<usize>,
    cap: int,
    o: Option<Expr>,
    n: Option<Expr>,
    x: int,
)
    requires
        change_seen_as_growth(s1, s2, visible, x),
    ensures
        (exists|sa: ResolvedScope|
            #[trigger] earlier_scope(s1[visible.last() as int], cap, sa) && opt_expr_resolved(
                s1.update(visible.last() as int, sa),
                visible,
                o,
                n,
            )) ==> exists|sa: ResolvedScope|
            #[trigger] earlier_scope(s2[visible.last() as int], cap, sa) && opt_expr_resolved(
                s2.update(visible.last() as int, sa),
                visible,
                o,
                n,
            ),
    decreases o, 1nat,
{
    let a = visible.last() as int;
    if exists|sa: ResolvedScope|
        #[trigger] earlier_scope(s1[a], cap, sa) && opt_expr_resolved(s1.update(a, sa), visible, o, n) {
        let sa = choose|sa: ResolvedScope|
            #[trigger] earlier_scope(s1[a], cap, sa) && opt_expr_resolved(s1.update(a, sa), visible, o, n);
        lemma_earlier_arena_stable(s1, s2, visible, x, cap, sa);
        lemma_opt_expr_resolved_stable_except(
            s1.update(a, sa),
            s2.update(a, sa),
            visible,
            o,
            n,
            if x == a { -1 } else { x },
        );
        assert(earlier_scope(s2[a], cap, sa));
    }
}

/// `lemma_factor_resolved_stable_except` for a list of joins.
pub proof fn lemma_joins_resolved_stable_except(
    s1: Seq<ResolvedScope>,
    s2: Seq<ResolvedScope>,
    visible: Seq<usize>,
    base: int,
    os: Seq<Join>,
    ns: Seq<Join>,
    x: int,
)
    requires
        change_seen_as_growth(s1, s2, visible, x),
    ensures
        joins_resolved(s1, visible, base, os, ns) ==> joins_resolved(s2, visible, base, os, ns),
    decreases os, 0nat,
{
    if joins_resolved(s1, visible, base, os, ns) && os.len() > 0 {
        lemma_joins_resolved_stable_except(s1, s2, visible, base, os.drop_last(), ns.drop_last(), x);
        lemma_factor_resolved_stable_except(
            s1,
            s2,
            visible,
            base + os.len() - 1,
            os.last().relation,
            ns.last().relation,
            x,
        );
        lemma_on_resolved_stable_except(s1, s2, visible, base + os.len(), os.last().on, ns.last().on, x);
    }
}

/// `lemma_factor_resolved_stable_except` for a FROM list.
pub proof fn lemma_from_resolved_stable_except(
    s1: Seq<ResolvedScope>,
    s2: Seq<ResolvedScope>,
    visible: Seq<usize>,
    base: int,
    os: Seq<TableWithJoins>,
    ns: Seq<TableWithJoins>,
    x: int,
)
    requires
        change_seen_as_growth(s1, s2, visible, x),
    ensures
        from_resolved(s1, visible, base, os, ns) ==> from_resolved(s2, visible, base, os, ns),
    decreases os, 0nat,
{
    if from_resolved(s1, visible, base, os, ns) && os.len() > 0 {
        let c = base + from_factors(os.drop_last()).len();
        lemma_from_resolved_stable_except(s1, s2, visible, base, os.drop_last(), ns.drop_last(), x);
        lemma_factor_resolved_stable_except(s1, s2, visible, c, os.last().relation, ns.last().relation, x);
        lemma_joins_resolved_stable_except(s1, s2, visible, c + 1, os.last().joins@, ns.last().joins@, x);
    }
}

} // verus!
