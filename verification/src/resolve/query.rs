//! Queries, CTEs and set operations.
use vstd::prelude::*;

use crate::ast::{Cte, Expr, Join, Query, Select, SelectItem, SetExpr, TableFactor, TableWithJoins};
use crate::resolve::errors::ResolutionError;
use crate::resolve::rewrite::{ctes_rewritten, lemma_ctes_rewritten_push, query_rewritten, set_expr_rewritten};
use crate::resolve::failures::{
    ctes_can_fail, from_can_fail, lemma_ctes_can_fail_at, query_can_fail, set_expr_can_fail,
};
use crate::resolve::refs::{
    lemma_query_body_resolved_stable, lemma_set_expr_resolved_stable, opened_scope, subquery_scope,
    ctes_resolved, ctes_fails_with, lemma_ctes_fails_with_at, lemma_ctes_resolved_stable_except, parents_below, lemma_exprs_resolved_stable, query_body_resolved, bindings_grown_except, earlier_bindings, set_expr_select_resolved, ctes_refs, exprs_refs, lemma_ctes_refs_push, opt_expr_refs, query_refs, set_expr_refs};
use crate::resolve::scope::{ColumnKey, CteBinding, ResolvedScope, ScopeType, SelectedColumn};
use crate::resolve::select::{
    item_plain, items_ok, items_plain, opt_expr_plain, select_fails_with, select_ok, select_plain,
};
use crate::resolve::column::strings_view;
use crate::resolve::refs::{
    expr_lookups_found, expr_plain, exprs_fails_with, exprs_lookups_found, exprs_plain, lemma_bindings_kept_lookups, lemma_exprs_fails_with_stable,
    lemma_plain_list_fails_by_lookup,
};
use crate::resolve::from::{
    cte_lookup, cte_lookup_from, lemma_cte_lookup_from_prefix, entry_names, first_cte, from_cte_tables, from_factors, from_flat, from_keys, from_on_refs, lemma_from_cte_tables_child,
    lemma_sources_for_stable, sources_for,
};
use crate::resolve::select::{
    column_view, items_columns, select_applied, select_role_sets, selected_views, ColumnView,
};
use crate::resolve::{
    bindings_kept, add_to_role, lemma_add_to_role_nothing, lemma_lookups_kept_within, lemma_lookups_kept_except_within, lemma_bindings_grown_within, no_roots_from, role_sets, same_but_children, frames_gained, lemma_branch_within_exit, lemma_continues_refl, lemma_continues_within,
    lemma_frames_gained_nothing, lemma_frames_gained_trans, lemma_within_trans, ColumnRole,
    ResolutionContext,
};
use crate::schema::SchemaProvider;

verus! {

/// The output names of a scope: the names of its selected columns, in order.
pub open spec fn output_names_of(s: ResolvedScope) -> Seq<Seq<char>> {
    s.selected_columns@.map_values(|c: SelectedColumn| c.name@)
}

/// Whether expression `e` refers to no column and holds no nested query:
/// literals, and calls and operators over such expressions.
pub open spec fn expr_closed(e: Expr) -> bool
    decreases e,
{
    match e {
        Expr::Value(_) => true,
        Expr::Function(f) => exprs_closed(f.args@) && exprs_closed(f.over@),
        Expr::Composite { op, operands } => exprs_closed(operands@),
        _ => false,
    }
}

/// Whether each of the expressions `es` is `expr_closed`.
pub open spec fn exprs_closed(es: Seq<Expr>) -> bool
    decreases es,
{
    es.len() > 0 ==> exprs_closed(es.drop_last()) && expr_closed(es.last())
}

/// A closed expression holds no nested query, and its lookups (there are
/// none) succeed in any arena.
pub proof fn lemma_expr_closed(scopes: Seq<ResolvedScope>, visible: Seq<usize>, e: Expr)
    requires
        expr_closed(e),
    ensures
        expr_plain(e),
        expr_lookups_found(scopes, visible, e),
    decreases e,
{
    match e {
        Expr::Function(f) => {
            lemma_exprs_closed(scopes, visible, f.args@);
            lemma_exprs_closed(scopes, visible, f.over@);
        },
        Expr::Composite { op, operands } => {
            lemma_exprs_closed(scopes, visible, operands@);
        },
        _ => {},
    }
}

/// `lemma_expr_closed` for lists.
pub proof fn lemma_exprs_closed(scopes: Seq<ResolvedScope>, visible: Seq<usize>, es: Seq<Expr>)
    requires
        exprs_closed(es),
    ensures
        exprs_plain(es),
        exprs_lookups_found(scopes, visible, es),
    decreases es,
{
    if es.len() > 0 {
        lemma_exprs_closed(scopes, visible, es.drop_last());
        lemma_expr_closed(scopes, visible, es.last());
    }
}

/// Whether SELECT item `item` is a closed expression, named or not, or an
/// unqualified wildcard.
pub open spec fn item_closed(item: SelectItem) -> bool {
    match item {
        SelectItem::UnnamedExpr(e) => expr_closed(e),
        SelectItem::ExprWithAlias { expr, .. } => expr_closed(expr),
        SelectItem::Wildcard => true,
        SelectItem::QualifiedWildcard(_) => false,
    }
}

/// Whether optional expression `e` is absent or closed.
pub open spec fn opt_expr_closed(e: Option<Expr>) -> bool {
    match e {
        Some(x) => expr_closed(x),
        None => true,
    }
}

/// Whether every expression of SELECT block `s` past its FROM clause is
/// closed, and every SELECT item is `item_closed`.
pub open spec fn select_closed(s: Select) -> bool {
    &&& forall|i: int| 0 <= i < s.projection@.len() ==> item_closed(#[trigger] s.projection@[i])
    &&& opt_expr_closed(s.selection)
    &&& exprs_closed(s.group_by@)
    &&& opt_expr_closed(s.having)
}

/// Whether FROM list `ts` is made of items without joins that each name,
/// by a one-part name, one of `names`.
pub open spec fn from_names_among(ts: Seq<TableWithJoins>, names: Seq<Seq<char>>) -> bool {
    forall|i: int|
        0 <= i < ts.len() ==> (#[trigger] ts[i]).joins@.len() == 0 && (ts[i].relation matches TableFactor::Table {
            name,
            ..
        } && name@.len() == 1 && names.contains(name@[0]@))
}

/// Whether CTE `c` is a SELECT block without WITH list or ORDER BY, whose
/// FROM items each name one of the CTEs `earlier`, and whose other
/// expressions are closed: a CTE whose resolution the arena cannot fail.
pub open spec fn cte_closed(c: Cte, earlier: Seq<Seq<char>>) -> bool {
    &&& c.query.with@.len() == 0
    &&& c.query.order_by@.len() == 0
    &&& *c.query.body matches SetExpr::Select(s) && from_names_among(s.from@, earlier) && select_closed(*s)
}

/// Whether each CTE of WITH list `cs` is `cte_closed` over the CTEs before
/// it.
pub open spec fn ctes_closed(cs: Seq<Cte>) -> bool {
    forall|k: int| 0 <= k < cs.len() ==> cte_closed(#[trigger] cs[k], cte_aliases(cs.take(k)))
}

/// A closed SELECT block holds no nested query and meets `select_ok` in any
/// arena.
pub proof fn lemma_select_closed(scopes: Seq<ResolvedScope>, visible: Seq<usize>, s: Select)
    requires
        select_closed(s),
    ensures
        select_plain(s),
        select_ok(scopes, visible, s),
{
    lemma_items_closed(scopes, visible, s.projection@);
    if let Some(x) = s.selection {
        lemma_expr_closed(scopes, visible, x);
    }
    lemma_exprs_closed(scopes, visible, s.group_by@);
    if let Some(x) = s.having {
        lemma_expr_closed(scopes, visible, x);
    }
}

/// `lemma_select_closed` for a SELECT list.
pub proof fn lemma_items_closed(scopes: Seq<ResolvedScope>, visible: Seq<usize>, items: Seq<SelectItem>)
    requires
        forall|i: int| 0 <= i < items.len() ==> item_closed(#[trigger] items[i]),
    ensures
        items_plain(items),
        items_ok(scopes, visible, items),
    decreases items.len(),
{
    if items.len() > 0 {
        assert forall|i: int| 0 <= i < items.drop_last().len() implies item_closed(
            #[trigger] items.drop_last()[i],
        ) by {
            assert(items.drop_last()[i] == items[i]);
        }
        lemma_items_closed(scopes, visible, items.drop_last());
        assert(item_closed(items[items.len() - 1]));
        match items.last() {
            SelectItem::UnnamedExpr(e) => lemma_expr_closed(scopes, visible, e),
            SelectItem::ExprWithAlias { expr, .. } => lemma_expr_closed(scopes, visible, expr),
            _ => {},
        }
        assert forall|i: int| 0 <= i < items.len() implies item_plain(#[trigger] items[i]) by {
            if i < items.len() - 1 {
                assert(items.drop_last()[i] == items[i]);
            }
            match items[i] {
                SelectItem::UnnamedExpr(e) => lemma_expr_closed(scopes, visible, e),
                SelectItem::ExprWithAlias { expr, .. } => lemma_expr_closed(scopes, visible, expr),
                _ => {},
            }
        }
    }
}

/// A name bound by a CTE of the last scope of the chain is found by a CTE
/// lookup.
pub proof fn lemma_cte_lookup_bound(scopes: Seq<ResolvedScope>, visible: Seq<usize>, name: Seq<char>)
    requires
        visible.len() > 0,
        binding_names(scopes[visible.last() as int].ctes@).contains(name),
    ensures
        cte_lookup(scopes, visible, name) is Some,
{
    reveal(first_cte);
    let ctes = scopes[visible.last() as int].ctes@;
    let j = choose|j: int| 0 <= j < binding_names(ctes).len() && binding_names(ctes)[j] == name;
    assert(ctes[j].name@ == name);
    assert(first_cte(ctes, name) is Some);
}

/// Each name of `names` is bound by a CTE visible from the last scope of
/// `visible`.
pub open spec fn names_bound(scopes: Seq<ResolvedScope>, visible: Seq<usize>, names: Seq<Seq<char>>) -> bool {
    forall|i: int| 0 <= i < names.len() ==> #[trigger] cte_lookup(scopes, visible, names[i]) is Some
}

/// Whether FROM item `f`, at any depth, names tables only by one-part names
/// that are among `names` or among the CTEs that a WITH list inside it makes
/// visible where they stand, and holds no nested query in an expression.
pub open spec fn factor_tables_among(f: TableFactor, names: Seq<Seq<char>>) -> bool
    decreases f,
{
    match f {
        TableFactor::Table { name, .. } => name@.len() == 1 && names.contains(name@[0]@),
        TableFactor::Derived { subquery, .. } => query_tables_among(*subquery, names),
        TableFactor::Function { args, .. } => exprs_plain(args@),
        TableFactor::Pivot { table, exprs } => factor_tables_among(*table, names) && exprs_plain(exprs@),
        TableFactor::Unsupported(_) => true,
    }
}

/// `factor_tables_among` for each joined item of `js`, whose conditions hold
/// no nested query.
pub open spec fn joins_tables_among(js: Seq<Join>, names: Seq<Seq<char>>) -> bool
    decreases js,
{
    js.len() > 0 ==> {
        &&& joins_tables_among(js.drop_last(), names)
        &&& factor_tables_among(js.last().relation, names)
        &&& opt_expr_plain(js.last().on)
    }
}

/// `factor_tables_among` for each item of FROM list `ts` and its joins.
pub open spec fn from_tables_among(ts: Seq<TableWithJoins>, names: Seq<Seq<char>>) -> bool
    decreases ts,
{
    ts.len() > 0 ==> {
        &&& from_tables_among(ts.drop_last(), names)
        &&& factor_tables_among(ts.last().relation, names)
        &&& joins_tables_among(ts.last().joins@, names)
    }
}

/// `factor_tables_among` for the FROM clause of every SELECT block of query
/// body `b`, whose other clauses hold no nested query.
pub open spec fn set_expr_tables_among(b: SetExpr, names: Seq<Seq<char>>) -> bool
    decreases b,
{
    match b {
        SetExpr::Select(s) => from_tables_among(s.from@, names) && select_plain(*s),
        SetExpr::Query(q) => query_tables_among(*q, names),
        SetExpr::SetOperation { left, right } => set_expr_tables_among(*left, names) && set_expr_tables_among(
            *right,
            names,
        ),
    }
}

/// `query_tables_among` for each CTE of WITH list `cs`, which also sees the
/// CTEs before it in the list.
pub open spec fn ctes_tables_among(cs: Seq<Cte>, names: Seq<Seq<char>>) -> bool
    decreases cs,
{
    cs.len() > 0 ==> {
        &&& ctes_tables_among(cs.drop_last(), names)
        &&& query_tables_among(*cs.last().query, names + cte_aliases(cs.drop_last()))
    }
}

/// Whether query `q`, at any depth, names tables only by one-part names that
/// are among `names` or among the CTEs that its WITH lists make visible where
/// they stand, and holds no nested query in an expression: a query whose
/// tables are all CTEs once `names` are.
pub open spec fn query_tables_among(q: Query, names: Seq<Seq<char>>) -> bool
    decreases q,
{
    &&& ctes_tables_among(q.with@, names)
    &&& set_expr_tables_among(*q.body, names + cte_aliases(q.with@))
    &&& exprs_plain(q.order_by@)
}

/// Each scope of chain `visible` is in both arenas, and in `s2` holds the
/// CTE bindings it held in `s1`, perhaps followed by more.
pub open spec fn chain_bindings_grown(s1: Seq<ResolvedScope>, s2: Seq<ResolvedScope>, visible: Seq<usize>) -> bool {
    forall|j: int|
        0 <= j < visible.len() ==> #[trigger] visible[j] < s1.len() && visible[j] < s2.len() && s1[visible[j] as int].ctes@.len()
            <= s2[visible[j] as int].ctes@.len() && s2[visible[j] as int].ctes@.take(
            s1[visible[j] as int].ctes@.len() as int,
        ) == s1[visible[j] as int].ctes@
}

/// Keeping every old scope but for its children keeps the bindings of every
/// scope of a chain through them.
pub proof fn lemma_chain_bindings_kept(s1: Seq<ResolvedScope>, s2: Seq<ResolvedScope>, visible: Seq<usize>)
    requires
        bindings_kept(s1, s2),
        forall|j: int| 0 <= j < visible.len() ==> #[trigger] visible[j] < s1.len(),
    ensures
        chain_bindings_grown(s1, s2, visible),
{
    assert forall|j: int| 0 <= j < visible.len() implies #[trigger] visible[j] < s1.len() && visible[j] < s2.len()
        && s1[visible[j] as int].ctes@.len() <= s2[visible[j] as int].ctes@.len() && s2[visible[j] as int].ctes@.take(
        s1[visible[j] as int].ctes@.len() as int,
    ) == s1[visible[j] as int].ctes@ by {
        let k = visible[j] as int;
        assert(same_but_children(s1[k], s2[k]));
        assert(s2[k].ctes@.take(s1[k].ctes@.len() as int) =~= s1[k].ctes@);
    }
}

/// Continuing inside the active scope, with its CTE bindings only extended,
/// keeps the bindings of every scope of the chain, perhaps followed by more.
pub proof fn lemma_chain_bindings_within<'r, T: SchemaProvider>(
    a: &ResolutionContext<'r, T>,
    b: &ResolutionContext<'r, T>,
)
    requires
        a.wf(),
        b.continues_within(a),
        a.scopes@[a.active_scope as int].ctes@.len() <= b.scopes@[a.active_scope as int].ctes@.len(),
        b.scopes@[a.active_scope as int].ctes@.take(a.scopes@[a.active_scope as int].ctes@.len() as int)
            == a.scopes@[a.active_scope as int].ctes@,
    ensures
        chain_bindings_grown(a.scopes@, b.scopes@, a.visible_scopes@),
{
    let v = a.visible_scopes@;
    assert forall|j: int| 0 <= j < v.len() implies #[trigger] v[j] < a.scopes@.len() && v[j] < b.scopes@.len()
        && a.scopes@[v[j] as int].ctes@.len() <= b.scopes@[v[j] as int].ctes@.len() && b.scopes@[v[j] as int].ctes@.take(
        a.scopes@[v[j] as int].ctes@.len() as int,
    ) == a.scopes@[v[j] as int].ctes@ by {
        let k = v[j] as int;
        if k != a.active_scope {
            assert(same_but_children(a.scopes@[k], b.scopes@[k]));
            assert(b.scopes@[k].ctes@.take(a.scopes@[k].ctes@.len() as int) =~= a.scopes@[k].ctes@);
        }
    }
}

/// What `joins_tables_among` says of each join.
pub proof fn lemma_joins_tables_among_at(js: Seq<Join>, names: Seq<Seq<char>>, i: int)
    requires
        joins_tables_among(js, names),
        0 <= i < js.len(),
    ensures
        factor_tables_among(js[i].relation, names),
        opt_expr_plain(js[i].on),
    decreases js.len(),
{
    if i < js.len() - 1 {
        lemma_joins_tables_among_at(js.drop_last(), names, i);
    }
}

/// What `from_tables_among` says of each FROM item.
pub proof fn lemma_from_tables_among_at(ts: Seq<TableWithJoins>, names: Seq<Seq<char>>, i: int)
    requires
        from_tables_among(ts, names),
        0 <= i < ts.len(),
    ensures
        factor_tables_among(ts[i].relation, names),
        joins_tables_among(ts[i].joins@, names),
    decreases ts.len(),
{
    if i < ts.len() - 1 {
        lemma_from_tables_among_at(ts.drop_last(), names, i);
    }
}

/// What `ctes_tables_among` says of each CTE.
pub proof fn lemma_ctes_tables_among_at(cs: Seq<Cte>, names: Seq<Seq<char>>, i: int)
    requires
        ctes_tables_among(cs, names),
        0 <= i < cs.len(),
    ensures
        query_tables_among(*cs[i].query, names + cte_aliases(cs.take(i))),
    decreases cs.len(),
{
    if i < cs.len() - 1 {
        lemma_ctes_tables_among_at(cs.drop_last(), names, i);
        assert(cs.drop_last().take(i) =~= cs.take(i));
    } else {
        assert(cs.drop_last() =~= cs.take(i));
    }
}

/// A CTE lookup that finds a binding keeps finding one while the scopes of
/// the chain only gain bindings after theirs.
pub proof fn lemma_cte_lookup_some_kept(
    s1: Seq<ResolvedScope>,
    s2: Seq<ResolvedScope>,
    visible: Seq<usize>,
    k: int,
    name: Seq<char>,
)
    requires
        k < visible.len(),
        chain_bindings_grown(s1, s2, visible),
        cte_lookup_from(s1, visible, k, name) is Some,
    ensures
        cte_lookup_from(s2, visible, k, name) is Some,
    decreases k + 1,
{
    reveal(first_cte);
    assert(visible[k] < s1.len());
    let c1 = s1[visible[k] as int].ctes@;
    let c2 = s2[visible[k] as int].ctes@;
    assert(c2.take(c1.len() as int) == c1);
    if first_cte(c1, name) is Some {
        let i = choose|i: int| 0 <= i < c1.len() && #[trigger] c1[i].name@ == name;
        assert(c2.take(c1.len() as int)[i] == c2[i]);
        assert(c2[i].name@ == name);
        assert(first_cte(c2, name) is Some);
    } else {
        if first_cte(c2, name) is None {
            lemma_cte_lookup_some_kept(s1, s2, visible, k - 1, name);
        }
    }
}

/// Names bound along a chain stay bound while its scopes only gain
/// bindings after theirs.
pub proof fn lemma_names_bound_kept(
    s1: Seq<ResolvedScope>,
    s2: Seq<ResolvedScope>,
    visible: Seq<usize>,
    names: Seq<Seq<char>>,
)
    requires
        chain_bindings_grown(s1, s2, visible),
        names_bound(s1, visible, names),
    ensures
        names_bound(s2, visible, names),
{
    assert forall|i: int| 0 <= i < names.len() implies #[trigger] cte_lookup(s2, visible, names[i]) is Some by {
        assert(cte_lookup(s1, visible, names[i]) is Some);
        lemma_cte_lookup_some_kept(s1, s2, visible, visible.len() - 1, names[i]);
    }
}

/// Names bound along a chain stay bound from a scope added to its end.
pub proof fn lemma_names_bound_push(scopes: Seq<ResolvedScope>, visible: Seq<usize>, n: usize, names: Seq<Seq<char>>)
    requires
        visible.len() > 0,
        names_bound(scopes, visible, names),
    ensures
        names_bound(scopes, visible.push(n), names),
{
    reveal(first_cte);
    assert forall|i: int| 0 <= i < names.len() implies #[trigger] cte_lookup(scopes, visible.push(n), names[i])
        is Some by {
        assert(cte_lookup(scopes, visible, names[i]) is Some);
        lemma_cte_lookup_from_prefix(scopes, visible, n, visible.len() - 1, names[i]);
    }
}

/// Names bound along a chain, and the names bound in its last scope, are
/// bound together.
pub proof fn lemma_names_bound_append(scopes: Seq<ResolvedScope>, visible: Seq<usize>, names: Seq<Seq<char>>, more: Seq<Seq<char>>)
    requires
        visible.len() > 0,
        names_bound(scopes, visible, names),
        forall|i: int| 0 <= i < more.len() ==> binding_names(scopes[visible.last() as int].ctes@).contains(#[trigger] more[i]),
    ensures
        names_bound(scopes, visible, names + more),
{
    assert forall|i: int| 0 <= i < (names + more).len() implies #[trigger] cte_lookup(scopes, visible, (names + more)[i])
        is Some by {
        if i < names.len() {
            assert((names + more)[i] == names[i]);
        } else {
            assert((names + more)[i] == more[i - names.len()]);
            lemma_cte_lookup_bound(scopes, visible, more[i - names.len()]);
        }
    }
}

/// Whether query `q` opens no scope of its own beyond the one it is
/// resolved in: no WITH list, a SELECT block over named tables only
/// (`from_flat`), and no nested query in any expression.
pub open spec fn query_flat(q: Query) -> bool {
    &&& q.with@.len() == 0
    &&& match *q.body {
        SetExpr::Select(s) => from_flat(s.from@) && select_plain(*s),
        _ => false,
    }
    &&& exprs_plain(q.order_by@)
}

/// Binding `b`, made in scope `a`, names a CTE scope opened under `a` and
/// lists that scope's output column names.
pub open spec fn binding_for(scopes: Seq<ResolvedScope>, a: int, b: CteBinding) -> bool {
    &&& 0 <= b.scope_id < scopes.len()
    &&& b.scope_id != a
    &&& scopes[b.scope_id as int].scope_type == ScopeType::Cte
    &&& scopes[b.scope_id as int].parent == a
    &&& strings_view(b.columns@) == output_names_of(scopes[b.scope_id as int])
}

/// Every CTE binding of scope `a` from position `from` on is as
/// `binding_for` says.
pub open spec fn ctes_bound(scopes: Seq<ResolvedScope>, a: int, from: int) -> bool {
    forall|k: int|
        from <= k < scopes[a].ctes@.len() ==> binding_for(scopes, a, #[trigger] scopes[a].ctes@[k])
}

/// The bindings of scope `a` at positions `from` to `to` stay as
/// `binding_for` says while the other scopes keep all but their children and
/// those positions keep their bindings.
pub proof fn lemma_bindings_for_kept(s1: Seq<ResolvedScope>, s2: Seq<ResolvedScope>, a: int, from: int, to: int)
    requires
        0 <= a < s1.len() <= s2.len(),
        forall|i: int| 0 <= i < s1.len() && i != a ==> same_but_children(#[trigger] s1[i], s2[i]),
        to <= s1[a].ctes@.len(),
        to <= s2[a].ctes@.len(),
        forall|k: int| from <= k < to ==> s2[a].ctes@[k] == s1[a].ctes@[k],
        forall|k: int| from <= k < to ==> binding_for(s1, a, #[trigger] s1[a].ctes@[k]),
    ensures
        forall|k: int| from <= k < to ==> binding_for(s2, a, #[trigger] s2[a].ctes@[k]),
{
    assert forall|k: int| from <= k < to implies binding_for(s2, a, #[trigger] s2[a].ctes@[k]) by {
        let b = s1[a].ctes@[k];
        assert(binding_for(s1, a, b));
        assert(same_but_children(s1[b.scope_id as int], s2[b.scope_id as int]));
    }
}

/// The columns that a scope takes over from the branch scopes `first` and
/// `second` of a set operation: the columns of `first`, each depending on
/// what it depends on and on what the column at the same position of
/// `second`, where there is one, depends on.
pub open spec fn adopted_views(first: ResolvedScope, second: ResolvedScope) -> Seq<ColumnView> {
    Seq::new(
        first.selected_columns@.len(),
        |k: int|
            (
                first.selected_columns@[k].name@,
                first.selected_columns@[k].dependencies@.union(
                    if k < second.selected_columns@.len() {
                        second.selected_columns@[k].dependencies@
                    } else {
                        Set::empty()
                    },
                ),
            ),
    )
}

/// The SELECT list of scope `id`, whose list was `base` before the query body
/// `body` was resolved in it, when `body` is not a SELECT block: `base`
/// followed by the columns taken over from the scopes in which the body's
/// parts were resolved, children of scope `id` opened after it. A
/// parenthesised query gives its one scope's columns; a set operation the
/// columns of its first branch, each depending also on the column at the
/// same position of its second branch.
pub open spec fn body_outputs(scopes: Seq<ResolvedScope>, id: int, base: Seq<ColumnView>, body: SetExpr) -> bool {
    match body {
        SetExpr::Select(_) => true,
        SetExpr::Query(_) => exists|f: int|
            #![trigger scopes[f]]
            id < f < scopes.len() && scopes[f].parent == id && scopes[f].scope_type == ScopeType::Subquery
                && selected_views(scopes[id]) == base + adopted_views(scopes[f], scopes[f]),
        SetExpr::SetOperation { .. } => exists|f: int, g: int|
            #![trigger scopes[f], scopes[g]]
            id < f < g < scopes.len() && scopes[f].parent == id && scopes[g].parent == id
                && scopes[f].scope_type == ScopeType::SetOpBranch && scopes[g].scope_type
                == ScopeType::SetOpBranch && selected_views(scopes[id]) == base + adopted_views(
                scopes[f],
                scopes[g],
            ),
    }
}

/// What `body_outputs` says of an arena stays true when the scopes other than
/// `id` keep all but their children and scope `id` keeps its SELECT list.
pub proof fn lemma_body_outputs_kept(
    s: Seq<ResolvedScope>,
    t: Seq<ResolvedScope>,
    id: int,
    base: Seq<ColumnView>,
    body: SetExpr,
)
    requires
        body_outputs(s, id, base, body),
        0 <= id < s.len() <= t.len(),
        forall|i: int| 0 <= i < s.len() && i != id ==> same_but_children(#[trigger] s[i], t[i]),
        t[id].selected_columns == s[id].selected_columns,
    ensures
        body_outputs(t, id, base, body),
{
    assert(selected_views(t[id]) == selected_views(s[id]));
    match body {
        SetExpr::Select(_) => {},
        SetExpr::Query(_) => {
            let f = choose|f: int|
                #![trigger s[f]]
                id < f < s.len() && s[f].parent == id && s[f].scope_type == ScopeType::Subquery
                    && selected_views(s[id]) == base + adopted_views(s[f], s[f]);
            assert(same_but_children(s[f], t[f]));
            assert(adopted_views(t[f], t[f]) =~= adopted_views(s[f], s[f]));
            assert(t[f].parent == id);
        },
        SetExpr::SetOperation { .. } => {
            let (f, g) = choose|f: int, g: int|
                #![trigger s[f], s[g]]
                id < f < g < s.len() && s[f].parent == id && s[g].parent == id && s[f].scope_type
                    == ScopeType::SetOpBranch && s[g].scope_type == ScopeType::SetOpBranch
                    && selected_views(s[id]) == base + adopted_views(s[f], s[g]);
            assert(same_but_children(s[f], t[f]));
            assert(same_but_children(s[g], t[g]));
            assert(adopted_views(t[f], t[g]) =~= adopted_views(s[f], s[g]));
            assert(t[f].parent == id && t[g].parent == id);
        },
    }
}

/// `err` is an error that resolving query body `b` in the scope that ends
/// `visible` can end in: for a SELECT block, as `select_fails_with` says;
/// for a parenthesised query, one it ends in in the subquery scope opened
/// for it; for a set operation, one that a branch ends in in the branch
/// scope opened for it.
pub open spec fn set_expr_fails_with(
    scopes: Seq<ResolvedScope>,
    visible: Seq<usize>,
    b: SetExpr,
    err: ResolutionError,
) -> bool
    decreases b,
{
    match b {
        SetExpr::Select(s) => select_fails_with(scopes, visible, *s, err),
        SetExpr::Query(q) => exists|m: usize|
            #[trigger] subquery_scope(scopes, visible, m) && query_fails_with(scopes, visible.push(m), *q, err),
        SetExpr::SetOperation { left, right } => (exists|m: usize|
            #[trigger] opened_scope(scopes, visible, m, ScopeType::SetOpBranch, true) && set_expr_fails_with(
                scopes,
                visible.push(m),
                *left,
                err,
            )) || (exists|m: usize|
            #[trigger] opened_scope(scopes, visible, m, ScopeType::SetOpBranch, true) && set_expr_fails_with(
                scopes,
                visible.push(m),
                *right,
                err,
            )),
    }
}

/// `err` is an error that resolving query `q` in the scope that ends
/// `visible` can end in: one of its CTEs (`ctes_fails_with`), its body
/// (`set_expr_fails_with`), or the failed lookup of a column reference of
/// its ORDER BY list.
pub open spec fn query_fails_with(
    scopes: Seq<ResolvedScope>,
    visible: Seq<usize>,
    q: Query,
    err: ResolutionError,
) -> bool
    decreases q,
{
    ||| ctes_fails_with(scopes, visible, q.with@, err)
    ||| set_expr_fails_with(scopes, visible, *q.body, err)
    ||| exprs_fails_with(scopes, visible, q.order_by@, err)
}

/// The names of a list of CTE bindings.
pub open spec fn binding_names(bs: Seq<CteBinding>) -> Seq<Seq<char>> {
    bs.map_values(|b: CteBinding| b.name@)
}

/// The aliases of a WITH list.
pub open spec fn cte_aliases(cs: Seq<Cte>) -> Seq<Seq<char>> {
    cs.map_values(|c: Cte| c.alias@)
}

/// Scope `n` is scope `o` after resolving the query `q` in it: its CTEs
/// bound, its body applied (a SELECT block as `select_applied` says; any
/// other body leaves the sources alone), and its ORDER BY columns tagged as
/// sort columns.
pub open spec fn query_applied(o: ResolvedScope, n: ResolvedScope, q: Query) -> bool {
    &&& binding_names(n.ctes@) == binding_names(o.ctes@) + cte_aliases(q.with@)
    &&& match *q.body {
        SetExpr::Select(s) => {
            &&& entry_names(n.sources.entries@) == entry_names(o.sources.entries@) + from_keys(s.from@)
            &&& selected_views(n) == selected_views(o) + items_columns(s.projection@, n.sources.entries@)
            &&& role_sets(n) == add_to_role(
                select_role_sets(role_sets(o), *s),
                ColumnRole::Sort,
                exprs_refs(q.order_by@),
            )
        },
        _ => {
            &&& n.sources == o.sources
            &&& role_sets(n) == add_to_role(role_sets(o), ColumnRole::Sort, exprs_refs(q.order_by@))
        },
    }
}

/// Scope `n` holds what resolving query `q` in a fresh scope puts there:
/// the CTE names, and for a SELECT body the FROM items as sources under
/// their keys, the SELECT list, and the join, filter, group-by and sort
/// columns; any other body leaves no sources, and only sort columns.
pub open spec fn query_scope(n: ResolvedScope, q: Query) -> bool {
    &&& binding_names(n.ctes@) == cte_aliases(q.with@)
    &&& match *q.body {
        SetExpr::Select(s) => {
            &&& entry_names(n.sources.entries@) == from_keys(s.from@)
            &&& selected_views(n) == items_columns(s.projection@, n.sources.entries@)
            &&& role_sets(n) == (
                from_on_refs(s.from@),
                opt_expr_refs(s.selection).union(opt_expr_refs(s.having)),
                exprs_refs(s.group_by@),
                exprs_refs(q.order_by@),
            )
        },
        _ => {
            &&& n.sources.entries@.len() == 0
            &&& role_sets(n) == (
                Set::<ColumnKey>::empty(),
                Set::<ColumnKey>::empty(),
                Set::<ColumnKey>::empty(),
                exprs_refs(q.order_by@),
            )
        },
    }
}

/// A scope without content.
pub open spec fn fresh_scope(s: ResolvedScope) -> bool {
    &&& s.sources.entries@.len() == 0
    &&& s.ctes@.len() == 0
    &&& s.selected_columns@.len() == 0
    &&& role_sets(s) == (
        Set::<ColumnKey>::empty(),
        Set::<ColumnKey>::empty(),
        Set::<ColumnKey>::empty(),
        Set::<ColumnKey>::empty(),
    )
}

/// Resolving a query into a fresh scope leaves exactly `query_scope`.
pub proof fn lemma_fresh_query_scope(o: ResolvedScope, n: ResolvedScope, q: Query)
    requires
        fresh_scope(o),
        query_applied(o, n, q),
    ensures
        query_scope(n, q),
{
    let e = Set::<ColumnKey>::empty();
    assert(binding_names(o.ctes@) =~= Seq::<Seq<char>>::empty());
    assert(binding_names(n.ctes@) =~= cte_aliases(q.with@));
    assert(entry_names(o.sources.entries@) =~= Seq::<Seq<char>>::empty());
    assert(selected_views(o) =~= Seq::empty());
    match *q.body {
        SetExpr::Select(s) => {
            assert(entry_names(n.sources.entries@) =~= from_keys(s.from@));
            assert(selected_views(n) =~= items_columns(s.projection@, n.sources.entries@));
            assert(e.union(from_on_refs(s.from@)) =~= from_on_refs(s.from@));
            assert(e.union(opt_expr_refs(s.selection)).union(opt_expr_refs(s.having)) =~= opt_expr_refs(
                s.selection,
            ).union(opt_expr_refs(s.having)));
            assert(e.union(exprs_refs(s.group_by@)) =~= exprs_refs(s.group_by@));
            assert(e.union(exprs_refs(q.order_by@)) =~= exprs_refs(q.order_by@));
        },
        _ => {
            assert(e.union(exprs_refs(q.order_by@)) =~= exprs_refs(q.order_by@));
        },
    }
}

impl<'r, T: SchemaProvider> ResolutionContext<'r, T> {
    /// Resolves a query in a new scope of type `scope_type`, opened as the
    /// last child of the active scope, leaves that scope again, and hands back
    /// the query's qualified form.
    pub fn resolve_query(
        &mut self,
        query: &Query,
        scope_type: ScopeType,
        allow_lateral: bool,
    ) -> (r: Result<Query, ResolutionError>)
        requires
            old(self).wf(),
        ensures
            r matches Ok(nq) ==> query_rewritten(*query, nq),
            r matches Err(err) ==> query_can_fail(*query, err),
            r matches Err(err) ==> query_fails_with(
                final(self).scopes@,
                old(self).visible_scopes@.push(old(self).scopes@.len() as usize),
                *query,
                err,
            ),
            final(self).wf(),
            final(self).continues_base(old(self)),
            no_roots_from(final(self).scopes@, old(self).scopes@.len() + 1int),
            scope_type != ScopeType::Root ==> final(self).continues(old(self)),
            final(self).scopes@.len() > old(self).scopes@.len(),
            final(self).scopes@[old(self).scopes@.len() as int].parent == old(self).active_scope,
            final(self).scopes@[old(self).scopes@.len() as int].scope_type == scope_type,
            final(self).scopes@[old(self).scopes@.len() as int].allow_lateral == allow_lateral,
            !(r matches Err(ResolutionError::UnsupportedQueryType(_))),
            r matches Ok(nq) ==> frames_gained(
                old(self).accumulator_stack@,
                final(self).accumulator_stack@,
                query_refs(nq),
            ),
            r matches Ok(nq) ==> query_scope(final(self).scopes@[old(self).scopes@.len() as int], nq),
            r is Ok ==> ctes_bound(final(self).scopes@, old(self).scopes@.len() as int, 0),
            r matches Ok(nq) ==> body_outputs(
                final(self).scopes@,
                old(self).scopes@.len() as int,
                Seq::empty(),
                *nq.body,
            ),
            r matches Ok(nq) ==> query_body_resolved(
                final(self).scopes@,
                old(self).visible_scopes@.push(old(self).scopes@.len() as usize),
                *query,
                nq,
            ),
            query_flat(*query) ==> final(self).scopes@.len() == old(self).scopes@.len() + 1,
            match *query.body {
                SetExpr::Select(s) => ctes_closed(query.with@) && from_names_among(
                    s.from@,
                    cte_aliases(query.with@),
                ) && select_plain(*s) && exprs_plain(query.order_by@) ==> !(r matches Err(
                    ResolutionError::TableNotFound(_),
                )),
                _ => true,
            },
            match *query.body {
                SetExpr::Select(s) => ctes_closed(query.with@) && from_names_among(
                    s.from@,
                    cte_aliases(query.with@),
                ) && select_ok(
                    final(self).scopes@,
                    old(self).visible_scopes@.push(old(self).scopes@.len() as usize),
                    *s,
                ) && exprs_plain(query.order_by@) && exprs_lookups_found(
                    final(self).scopes@,
                    old(self).visible_scopes@.push(old(self).scopes@.len() as usize),
                    query.order_by@,
                ) ==> r is Ok,
                _ => true,
            },
            query.with@.len() == 0 ==> match *query.body {
                SetExpr::Select(s) => from_cte_tables(old(self).scopes@, old(self).visible_scopes@, s.from@)
                    && select_plain(*s) && exprs_plain(query.order_by@) ==> !(r matches Err(
                    ResolutionError::TableNotFound(_),
                )),
                _ => true,
            },
            query.with@.len() == 0 ==> match *query.body {
                SetExpr::Select(s) => from_cte_tables(old(self).scopes@, old(self).visible_scopes@, s.from@)
                    && select_ok(
                    final(self).scopes@,
                    old(self).visible_scopes@.push(old(self).scopes@.len() as usize),
                    *s,
                ) && exprs_plain(query.order_by@) && exprs_lookups_found(
                    final(self).scopes@,
                    old(self).visible_scopes@.push(old(self).scopes@.len() as usize),
                    query.order_by@,
                ) ==> r is Ok,
                _ => true,
            },
            match *query.body {
                SetExpr::Select(s) => (r is Ok || (r matches Err(err) && !ctes_can_fail(query.with@, err)
                    && !from_can_fail(s.from@, err))) ==> sources_for(
                    final(self).scopes@,
                    old(self).visible_scopes@.push(old(self).scopes@.len() as usize),
                    final(self).scopes@[old(self).scopes@.len() as int].sources.entries@,
                    from_factors(s.from@),
                ),
                _ => true,
            },
            forall|names: Seq<Seq<char>>|
                #![trigger query_tables_among(*query, names)]
                names_bound(old(self).scopes@, old(self).visible_scopes@, names) && query_tables_among(*query, names)
                    ==> !(r matches Err(ResolutionError::TableNotFound(_))),
        decreases query, 2nat,
    {
        let ghost s0 = *self;
        self.branch_scope(scope_type, allow_lateral);
        let ghost b = *self;
        proof {
            lemma_chain_bindings_kept(s0.scopes@, b.scopes@, s0.visible_scopes@);
            assert forall|names: Seq<Seq<char>>|
                names_bound(s0.scopes@, s0.visible_scopes@, names) implies #[trigger] names_bound(
                b.scopes@,
                b.visible_scopes@,
                names,
            ) by {
                lemma_names_bound_kept(s0.scopes@, b.scopes@, s0.visible_scopes@, names);
                lemma_names_bound_push(b.scopes@, s0.visible_scopes@, s0.scopes@.len() as usize, names);
            }
            let qb0 = *query.body;
            if qb0 is Select {
                let sel = qb0->Select_0;
                if from_cte_tables(s0.scopes@, s0.visible_scopes@, sel.from@) {
                    assert forall|i: int| 0 <= i < s0.scopes@.len() implies (#[trigger] b.scopes@[i]).ctes
                        == s0.scopes@[i].ctes by {
                        assert(same_but_children(s0.scopes@[i], b.scopes@[i]));
                    }
                    lemma_from_cte_tables_child(
                        s0.scopes@,
                        b.scopes@,
                        s0.visible_scopes@,
                        s0.scopes@.len() as usize,
                        sel.from@,
                    );
                }
            }
        }
        let r = self.resolve_query_body(query);
        let ghost c = *self;
        self.exit_scope();
        proof {
            lemma_branch_within_exit(&s0, &b, &c, self);
            let es0 = c.scopes@[b.active_scope as int].sources.entries@;
            assert(es0.skip(0) =~= es0);
            if r is Ok {
                lemma_fresh_query_scope(b.scopes@[b.active_scope as int], c.scopes@[b.active_scope as int], r->Ok_0);
                assert(selected_views(b.scopes@[b.active_scope as int]) =~= Seq::<ColumnView>::empty());
                let es = c.scopes@[b.active_scope as int].sources.entries@;
                assert(es.skip(0) =~= es);
            }
        }
        r
    }

    /// Resolves a query in the active scope: its CTEs, its body, then its
    /// ORDER BY list, whose columns are tagged as sort columns; hands back
    /// the query's qualified form.
    pub fn resolve_query_body(&mut self, query: &Query) -> (r: Result<Query, ResolutionError>)
        requires
            old(self).wf(),
        ensures
            r matches Ok(nq) ==> query_rewritten(*query, nq),
            r matches Err(err) ==> query_can_fail(*query, err),
            r matches Err(err) ==> query_fails_with(final(self).scopes@, old(self).visible_scopes@, *query, err),
            final(self).wf(),
            final(self).continues_within(old(self)),
            !(r matches Err(ResolutionError::UnsupportedQueryType(_))),
            r matches Ok(nq) ==> frames_gained(
                old(self).accumulator_stack@,
                final(self).accumulator_stack@,
                query_refs(nq),
            ),
            r matches Ok(nq) ==> query_applied(
                old(self).scopes@[old(self).active_scope as int],
                final(self).old_active(old(self)),
                nq,
            ),
            r is Ok ==> ctes_bound(
                final(self).scopes@,
                old(self).active_scope as int,
                old(self).scopes@[old(self).active_scope as int].ctes@.len() as int,
            ),
            r matches Ok(nq) ==> body_outputs(
                final(self).scopes@,
                old(self).active_scope as int,
                selected_views(old(self).scopes@[old(self).active_scope as int]),
                *nq.body,
            ),
            r matches Ok(nq) ==> query_body_resolved(
                final(self).scopes@,
                old(self).visible_scopes@,
                *query,
                nq,
            ),
            query_flat(*query) ==> final(self).scopes@.len() == old(self).scopes@.len(),
            match *query.body {
                SetExpr::Select(s) => ctes_closed(query.with@) && from_names_among(
                    s.from@,
                    cte_aliases(query.with@),
                ) && select_plain(*s) && exprs_plain(query.order_by@) ==> !(r matches Err(
                    ResolutionError::TableNotFound(_),
                )),
                _ => true,
            },
            match *query.body {
                SetExpr::Select(s) => ctes_closed(query.with@) && from_names_among(
                    s.from@,
                    cte_aliases(query.with@),
                ) && select_ok(final(self).scopes@, old(self).visible_scopes@, *s) && exprs_plain(
                    query.order_by@,
                ) && exprs_lookups_found(final(self).scopes@, old(self).visible_scopes@, query.order_by@)
                    ==> r is Ok,
                _ => true,
            },
            query.with@.len() == 0 ==> match *query.body {
                SetExpr::Select(s) => from_cte_tables(old(self).scopes@, old(self).visible_scopes@, s.from@)
                    && select_plain(*s) && exprs_plain(query.order_by@) ==> !(r matches Err(
                    ResolutionError::TableNotFound(_),
                )),
                _ => true,
            },
            query.with@.len() == 0 ==> match *query.body {
                SetExpr::Select(s) => from_cte_tables(old(self).scopes@, old(self).visible_scopes@, s.from@)
                    && select_ok(final(self).scopes@, old(self).visible_scopes@, *s) && exprs_plain(
                    query.order_by@,
                ) && exprs_lookups_found(final(self).scopes@, old(self).visible_scopes@, query.order_by@)
                    ==> r is Ok,
                _ => true,
            },
            match *query.body {
                SetExpr::Select(s) => (r is Ok || (r matches Err(err) && !ctes_can_fail(query.with@, err)
                    && !from_can_fail(s.from@, err))) ==> sources_for(
                    final(self).scopes@,
                    old(self).visible_scopes@,
                    final(self).old_active(old(self)).sources.entries@.skip(
                        old(self).scopes@[old(self).active_scope as int].sources.entries@.len() as int,
                    ),
                    from_factors(s.from@),
                ),
                _ => true,
            },
            forall|names: Seq<Seq<char>>|
                #![trigger query_tables_among(*query, names)]
                names_bound(old(self).scopes@, old(self).visible_scopes@, names) && query_tables_among(*query, names)
                    ==> !(r matches Err(ResolutionError::TableNotFound(_))),
        decreases query, 1nat,
    {
        let ghost s0 = *self;
        let r0 = self.resolve_ctes(&query.with);
        proof {
            assert forall|names: Seq<Seq<char>>|
                names_bound(s0.scopes@, s0.visible_scopes@, names) && #[trigger] query_tables_among(*query, names)
                    implies !(r0 matches Err(ResolutionError::TableNotFound(_))) by {
                assert(ctes_tables_among(query.with@, names));
            }
        }
        let with = r0?;
        let ghost s1 = *self;
        proof {
            let a = s0.active_scope as int;
            lemma_chain_bindings_within(&s0, &s1);
            let al = cte_aliases(query.with@);
            assert forall|k: int| 0 <= k < al.len() implies binding_names(s1.scopes@[a].ctes@).contains(
                #[trigger] al[k],
            ) by {
                assert(binding_names(s1.scopes@[a].ctes@)[binding_names(s0.scopes@[a].ctes@).len() + k] == al[k]);
            }
            assert forall|names: Seq<Seq<char>>|
                names_bound(s0.scopes@, s0.visible_scopes@, names) implies #[trigger] names_bound(
                s1.scopes@,
                s1.visible_scopes@,
                names + cte_aliases(query.with@),
            ) by {
                lemma_names_bound_kept(s0.scopes@, s1.scopes@, s0.visible_scopes@, names);
                lemma_names_bound_append(s1.scopes@, s1.visible_scopes@, names, al);
            }
        }
        proof {
            let qb0 = *query.body;
            if qb0 is Select && ctes_closed(query.with@) {
                let sel = qb0->Select_0;
                if from_names_among(sel.from@, cte_aliases(query.with@)) {
                    let a = s0.active_scope as int;
                    let names = binding_names(s1.scopes@[a].ctes@);
                    let base = binding_names(s0.scopes@[a].ctes@);
                    assert forall|t: int| 0 <= t < sel.from@.len() implies (#[trigger] sel.from@[t]).joins@.len()
                        == 0 && (sel.from@[t].relation matches TableFactor::Table { name, .. } && name@.len() == 1
                        && cte_lookup(s1.scopes@, s1.visible_scopes@, name@[0]@) is Some) by {
                        let nm = sel.from@[t].relation->Table_name;
                        let al = cte_aliases(with@);
                        assert(al.contains(nm@[0]@));
                        let j = choose|j: int| 0 <= j < al.len() && al[j] == nm@[0]@;
                        assert(names[base.len() + j] == nm@[0]@);
                        assert(names.contains(nm@[0]@));
                        lemma_cte_lookup_bound(s1.scopes@, s1.visible_scopes@, nm@[0]@);
                    }
                }
            }
        }
        let r = self.resolve_set_expr(&*query.body);
        proof {
            lemma_within_trans(&s0, &s1, self);
            assert forall|names: Seq<Seq<char>>|
                names_bound(s0.scopes@, s0.visible_scopes@, names) && #[trigger] query_tables_among(*query, names)
                    implies !(r matches Err(ResolutionError::TableNotFound(_))) by {
                assert(names_bound(s1.scopes@, s1.visible_scopes@, names + cte_aliases(query.with@)));
                assert(set_expr_tables_among(*query.body, names + cte_aliases(query.with@)));
            }
        }
        let body = r?;
        let ghost s2 = *self;
        let r = self.resolve_collecting_slice(&query.order_by);
        proof {
            lemma_continues_within(&s2, self);
            lemma_within_trans(&s0, &s2, self);
            if r is Err {
                lemma_bindings_kept_lookups(s2.scopes@, self.scopes@);
                lemma_exprs_fails_with_stable(s2.scopes@, self.scopes@, s0.visible_scopes@, query.order_by@, r->Err_0);
                if exprs_plain(query.order_by@) {
                    lemma_plain_list_fails_by_lookup(s2.scopes@, s0.visible_scopes@, query.order_by@, r->Err_0);
                }
                let qb0 = *query.body;
                if qb0 is Select {
                    let a = s0.active_scope as int;
                    let l0 = s0.scopes@[a].sources.entries@.len() as int;
                    lemma_sources_for_stable(
                        &s2,
                        self,
                        s2.scopes@[a].sources.entries@.skip(l0),
                        from_factors(qb0->Select_0.from@),
                    );
                }
            }
        }
        let (order_by, sorted) = r?;
        let ghost s3 = *self;
        let ghost qb = body;
        self.tag_columns(ColumnRole::Sort, &sorted);
        proof {
            lemma_within_trans(&s0, &s3, self);
            let a = s0.active_scope as int;
            assert(self.scopes@[a].sources == s2.scopes@[a].sources);
            assert(self.scopes@[a].selected_columns == s2.scopes@[a].selected_columns);
            assert(same_but_children(s2.scopes@[a], s3.scopes@[a]));
            assert(self.scopes@[a].ctes == s1.scopes@[a].ctes);
            assert(role_sets(self.scopes@[a]) == add_to_role(
                role_sets(s2.scopes@[a]),
                ColumnRole::Sort,
                exprs_refs(order_by@),
            ));
            match qb {
                SetExpr::Select(sel) => {
                    assert(select_applied(s1.scopes@[a], s2.scopes@[a], *sel));
                    assert(role_sets(s1.scopes@[a]) == role_sets(s0.scopes@[a]));
                    assert(s1.scopes@[a].selected_columns == s0.scopes@[a].selected_columns);
                    assert(s1.scopes@[a].sources == s0.scopes@[a].sources);
                },
                _ => {
                    assert(s2.scopes@[a].sources == s0.scopes@[a].sources);
                },
            }
            lemma_frames_gained_trans(
                s0.accumulator_stack@,
                s1.accumulator_stack@,
                s2.accumulator_stack@,
                ctes_refs(with@),
                set_expr_refs(body),
            );
            lemma_frames_gained_trans(
                s0.accumulator_stack@,
                s2.accumulator_stack@,
                self.accumulator_stack@,
                ctes_refs(with@).union(set_expr_refs(body)),
                exprs_refs(order_by@),
            );
            assert(selected_views(s1.scopes@[a]) == selected_views(s0.scopes@[a]));
            lemma_body_outputs_kept(s2.scopes@, self.scopes@, a, selected_views(s0.scopes@[a]), body);
            lemma_within_trans(&s2, &s3, self);
            lemma_within_trans(&s1, &s2, self);
            lemma_bindings_for_kept(
                s1.scopes@,
                self.scopes@,
                a,
                s0.scopes@[a].ctes@.len() as int,
                s1.scopes@[a].ctes@.len() as int,
            );
            lemma_lookups_kept_within(&s2, self);
            let nq = Query { with, body: Box::new(body), order_by };
            lemma_lookups_kept_within(&s3, self);
            lemma_set_expr_resolved_stable(s2.scopes@, self.scopes@, s0.visible_scopes@, *query.body, body);
            lemma_exprs_resolved_stable(s3.scopes@, self.scopes@, s0.visible_scopes@, query.order_by@, order_by@);
            lemma_lookups_kept_except_within(&s1, self);
            assert(parents_below(s1.scopes@));
            assert(self.scopes@[a].ctes@.take(s1.scopes@[a].ctes@.len() as int) =~= s1.scopes@[a].ctes@);
            assert(bindings_grown_except(s1.scopes@, self.scopes@, a));
            lemma_ctes_resolved_stable_except(
                s1.scopes@,
                self.scopes@,
                s0.visible_scopes@,
                s0.scopes@[a].ctes@.len() as int,
                query.with@,
                with@,
                a,
            );
            assert(binding_names(s1.scopes@[a].ctes@).len() == s1.scopes@[a].ctes@.len());
            assert(binding_names(s0.scopes@[a].ctes@).len() == s0.scopes@[a].ctes@.len());
            assert(cte_aliases(with@).len() == with@.len());
            assert(self.scopes@[a].ctes == s1.scopes@[a].ctes);
            assert(self.scopes@[a].ctes@.len() - query.with@.len() == s0.scopes@[a].ctes@.len());
            assert(query_body_resolved(self.scopes@, s0.visible_scopes@, *query, nq));
            let qb0 = *query.body;
            if qb0 is Select {
                let sel = qb0->Select_0;
                let l0 = s0.scopes@[a].sources.entries@.len() as int;
                lemma_sources_for_stable(&s2, self, s2.scopes@[a].sources.entries@.skip(l0), from_factors(sel.from@));
            }
        }
        Ok(Query { with, body: Box::new(body), order_by })
    }

    /// Resolves each CTE of a WITH list in a scope of its own, and binds its
    /// name in the active scope, where the following CTEs and the query body
    /// can refer to it; hands back the list's qualified form.
    pub fn resolve_ctes(&mut self, ctes: &Vec<Cte>) -> (r: Result<Vec<Cte>, ResolutionError>)
        requires
            old(self).wf(),
        ensures
            r matches Ok(nc) ==> ctes_rewritten(ctes@, nc@),
            r matches Err(err) ==> ctes_can_fail(ctes@, err),
            r matches Err(err) ==> ctes_fails_with(final(self).scopes@, old(self).visible_scopes@, ctes@, err),
            final(self).wf(),
            final(self).continues_within(old(self)),
            !(r matches Err(ResolutionError::UnsupportedQueryType(_))),
            final(self).keeps_sources(old(self)),
            final(self).keeps_selected(old(self)),
            final(self).keeps_roles(old(self)),
            ctes@.len() == 0 ==> *final(self) == *old(self) && r is Ok,
            ctes_closed(ctes@) ==> r is Ok,
            r matches Ok(nc) ==> cte_aliases(nc@) == cte_aliases(ctes@),
            r matches Ok(nc) ==> ctes_resolved(
                final(self).scopes@,
                old(self).visible_scopes@,
                old(self).scopes@[old(self).active_scope as int].ctes@.len() as int,
                ctes@,
                nc@,
            ),
            r is Ok ==> ctes_bound(
                final(self).scopes@,
                old(self).active_scope as int,
                old(self).scopes@[old(self).active_scope as int].ctes@.len() as int,
            ),
            r matches Ok(nc) ==> binding_names(final(self).old_active(old(self)).ctes@) == binding_names(
                old(self).scopes@[old(self).active_scope as int].ctes@,
            ) + cte_aliases(nc@),
            r matches Ok(nc) ==> frames_gained(
                old(self).accumulator_stack@,
                final(self).accumulator_stack@,
                ctes_refs(nc@),
            ),
            r is Ok ==> final(self).old_active(old(self)).ctes@.len() >= old(self).scopes@[old(
                self,
            ).active_scope as int].ctes@.len() && final(self).old_active(old(self)).ctes@.take(
                old(self).scopes@[old(self).active_scope as int].ctes@.len() as int,
            ) == old(self).scopes@[old(self).active_scope as int].ctes@,
            forall|names: Seq<Seq<char>>|
                #![trigger ctes_tables_among(ctes@, names)]
                names_bound(old(self).scopes@, old(self).visible_scopes@, names) && ctes_tables_among(ctes@, names)
                    ==> !(r matches Err(ResolutionError::TableNotFound(_))),
        decreases ctes, 0nat,
    {
        let ghost s0 = *self;
        let ghost c0 = ctes@;
        let n = ctes.len();
        let mut out: Vec<Cte> = Vec::new();
        proof {
            lemma_continues_refl(self);
            lemma_continues_within(&s0, self);
            lemma_frames_gained_nothing(self.accumulator_stack@);
            assert(out@ =~= Seq::<Cte>::empty());
            assert(c0.take(0) =~= Seq::<Cte>::empty());
            assert(binding_names(self.scopes@[self.active_scope as int].ctes@) =~= binding_names(
                self.scopes@[self.active_scope as int].ctes@,
            ) + cte_aliases(out@));
        }
        let mut i: usize = 0;
        while i < n
            invariant
                0 <= i <= n,
                n == c0.len(),
                c0 == ctes@,
                s0 == *old(self),
                s0.wf(),
                n == 0 ==> *self == s0,
                cte_aliases(out@) == cte_aliases(c0.take(i as int)),
                ctes_resolved(
                    self.scopes@,
                    s0.visible_scopes@,
                    s0.scopes@[s0.active_scope as int].ctes@.len() as int,
                    c0.take(i as int),
                    out@,
                ),
                ctes_bound(
                    self.scopes@,
                    s0.active_scope as int,
                    s0.scopes@[s0.active_scope as int].ctes@.len() as int,
                ),
                out@.len() == i,
                self.old_active(&s0).ctes@.len() == s0.scopes@[s0.active_scope as int].ctes@.len() + i,
                self.old_active(&s0).ctes@.take(s0.scopes@[s0.active_scope as int].ctes@.len() as int)
                    == s0.scopes@[s0.active_scope as int].ctes@,
                self.wf(),
                self.continues_within(&s0),
                ctes_rewritten(c0.take(i as int), out@),
                self.keeps_sources(&s0),
                self.keeps_selected(&s0),
                self.keeps_roles(&s0),
                binding_names(self.old_active(&s0).ctes@) == binding_names(
                    s0.scopes@[s0.active_scope as int].ctes@,
                ) + cte_aliases(out@),
                frames_gained(s0.accumulator_stack@, self.accumulator_stack@, ctes_refs(out@)),
            decreases n - i,
        {
            let ghost s1 = *self;
            let ghost before = out@;
            let m = self.scopes.len();
            proof {
                assert(decreases_to!(*ctes => *ctes@[i as int].query)) by {
                    assert(decreases_to!(*ctes => ctes@[i as int]));
                }
            }
            proof {
                if ctes_closed(c0) {
                    let c = c0[i as int];
                    assert(cte_closed(c, cte_aliases(c0.take(i as int))));
                    let sel = (*c.query.body)->Select_0;
                    let a = s0.active_scope as int;
                    let names = binding_names(self.scopes@[a].ctes@);
                    let base = binding_names(s0.scopes@[a].ctes@);
                    assert forall|t: int| 0 <= t < sel.from@.len() implies (#[trigger] sel.from@[t]).joins@.len()
                        == 0 && (sel.from@[t].relation matches TableFactor::Table { name, .. } && name@.len() == 1
                        && cte_lookup(self.scopes@, self.visible_scopes@, name@[0]@) is Some) by {
                        let nm = sel.from@[t].relation->Table_name;
                        let al = cte_aliases(out@);
                        assert(al.contains(nm@[0]@));
                        let j = choose|j: int| 0 <= j < al.len() && al[j] == nm@[0]@;
                        assert(names[base.len() + j] == nm@[0]@);
                        assert(names.contains(nm@[0]@));
                        lemma_cte_lookup_bound(self.scopes@, self.visible_scopes@, nm@[0]@);
                    }
                    lemma_select_closed(
                        self.scopes@,
                        self.visible_scopes@.push(self.scopes@.len() as usize),
                        *sel,
                    );
                    assert(c.query.order_by@ =~= Seq::<Expr>::empty());
                }
            }
            let r = self.resolve_query(&*ctes[i].query, ScopeType::Cte, false);
            proof {
                lemma_continues_within(&s1, self);
                if ctes_closed(c0) {
                    let sel = (*c0[i as int].query.body)->Select_0;
                    lemma_select_closed(
                        self.scopes@,
                        s1.visible_scopes@.push(s1.scopes@.len() as usize),
                        *sel,
                    );
                }
                lemma_within_trans(&s0, &s1, self);
                if r is Err {
                    lemma_ctes_can_fail_at(c0, i as int, r->Err_0);
                    assert(opened_scope(self.scopes@, s0.visible_scopes@, m, ScopeType::Cte, false));
                    lemma_ctes_fails_with_at(self.scopes@, s0.visible_scopes@, c0, i as int, m, r->Err_0);
                }
                let a = s0.active_scope as int;
                lemma_chain_bindings_within(&s0, &s1);
                let al = cte_aliases(c0.take(i as int));
                assert forall|k: int| 0 <= k < al.len() implies binding_names(s1.scopes@[a].ctes@).contains(
                    #[trigger] al[k],
                ) by {
                    assert(binding_names(s1.scopes@[a].ctes@)[binding_names(s0.scopes@[a].ctes@).len() + k] == al[k]);
                }
                assert forall|names: Seq<Seq<char>>|
                    names_bound(s0.scopes@, s0.visible_scopes@, names) && #[trigger] ctes_tables_among(c0, names)
                        implies !(r matches Err(ResolutionError::TableNotFound(_))) by {
                    lemma_ctes_tables_among_at(c0, names, i as int);
                    lemma_names_bound_kept(s0.scopes@, s1.scopes@, s0.visible_scopes@, names);
                    lemma_names_bound_append(s1.scopes@, s1.visible_scopes@, names, al);
                    assert(query_tables_among(*c0[i as int].query, names + al));
                }
            }
            let q = r?;
            let columns = self.output_names(m);
            let name = ctes[i].alias.clone();
            let ghost s2 = *self;
            let ghost s3 = *self;
            self.add_cte(CteBinding { name, scope_id: m, columns });
            proof {
                let a = s0.active_scope as int;
                let base = s0.scopes@[a].ctes@.len() as int;
                assert(same_but_children(s1.scopes@[a], s3.scopes@[a]));
                lemma_bindings_for_kept(s1.scopes@, self.scopes@, a, base, s1.scopes@[a].ctes@.len() as int);
                assert(self.scopes@[m as int] == s3.scopes@[m as int]);
                assert(binding_for(self.scopes@, a, self.scopes@[a].ctes@.last()));
            }
            let alias = ctes[i].alias.clone();
            out.push(Cte { alias, query: Box::new(q) });
            proof {
                lemma_within_trans(&s0, &s2, self);
                lemma_within_trans(&s1, &s2, self);
                assert(out@.take(i as int) =~= before);
                assert(out@.take(i + 1) =~= out@);
                let a = s0.active_scope as int;
                let b0 = s0.scopes@[a].ctes@.len() as int;
                assert(same_but_children(s1.scopes@[a], s2.scopes@[a]));
                assert(self.scopes@[a].ctes@.take(s1.scopes@[a].ctes@.len() as int) =~= s1.scopes@[a].ctes@);
                assert(parents_below(s1.scopes@));
                lemma_bindings_grown_within(&s1, self);
                lemma_ctes_resolved_stable_except(
                    s1.scopes@,
                    self.scopes@,
                    s0.visible_scopes@,
                    b0,
                    c0.take(i as int),
                    before,
                    a,
                );
                let vm = s0.visible_scopes@.push(m);
                assert forall|j: int| 0 <= j < vm.len() implies #[trigger] vm[j] < s2.scopes@.len() by {
                    if j < s0.visible_scopes@.len() {
                        assert(vm[j] == s0.visible_scopes@[j]);
                    }
                }
                let t = self.scopes@.update(a, s1.scopes@[a]);
                assert forall|k: int| 0 <= k < s2.scopes@.len() implies (#[trigger] t[k]).sources
                    == s2.scopes@[k].sources && t[k].ctes == s2.scopes@[k].ctes && t[k].allow_lateral
                    == s2.scopes@[k].allow_lateral && t[k].parent == s2.scopes@[k].parent && t[k].scope_type
                    == s2.scopes@[k].scope_type by {
                    if k != a {
                        assert(self.scopes@[k] == s2.scopes@[k]);
                    }
                }
                lemma_query_body_resolved_stable(s2.scopes@, t, vm, *c0[i as int].query, q);
                assert(opened_scope(t, s0.visible_scopes@, m, ScopeType::Cte, false));
                assert(self.scopes@[a].ctes@.take(b0 + i) =~= s1.scopes@[a].ctes@);
                assert(earlier_bindings(self.scopes@[a], b0 + i, s1.scopes@[a]));
                assert(s0.visible_scopes@.last() == a);
                assert(c0.take(i + 1).last() == c0[i as int]);
                assert(*out@.last().query == q);
                assert(query_body_resolved(t, vm, *c0[i as int].query, q));
                assert(exists|mm: usize|
                    #[trigger] opened_scope(t, s0.visible_scopes@, mm, ScopeType::Cte, false) && query_body_resolved(
                        t,
                        s0.visible_scopes@.push(mm),
                        *c0[i as int].query,
                        q,
                    ));
                assert(self.scopes@.update(s0.visible_scopes@.last() as int, s1.scopes@[a]) == t);
                let os = c0.take(i + 1);
                let ns = out@;
                let vis = s0.visible_scopes@;
                assert(os.drop_last() =~= c0.take(i as int));
                assert(ns.drop_last() =~= before);
                assert(ctes_resolved(self.scopes@, vis, b0, os.drop_last(), ns.drop_last()));
                assert(b0 + os.len() - 1 == b0 + i);
                assert(os.last() == c0[i as int]);
                assert(ns.last() == out@[i as int]);
                assert(exists|sa: ResolvedScope|
                    #[trigger] earlier_bindings(self.scopes@[vis.last() as int], b0 + os.len() - 1, sa) && exists|mm: usize|
                        #[trigger] opened_scope(self.scopes@.update(vis.last() as int, sa), vis, mm, ScopeType::Cte, false)
                            && query_body_resolved(
                            self.scopes@.update(vis.last() as int, sa),
                            vis.push(mm),
                            *os.last().query,
                            *ns.last().query,
                        ));
                assert(ctes_resolved(self.scopes@, s0.visible_scopes@, b0, c0.take(i + 1), out@));
                assert(cte_aliases(out@) =~= cte_aliases(before).push(out@[i as int].alias@));
                assert(c0.take(i + 1) =~= c0.take(i as int).push(c0[i as int]));
                assert(cte_aliases(c0.take(i + 1)) =~= cte_aliases(c0.take(i as int)).push(c0[i as int].alias@));
                assert(binding_names(self.scopes@[a].ctes@) =~= binding_names(s2.scopes@[a].ctes@).push(
                    out@[i as int].alias@,
                ));
                lemma_ctes_refs_push(out@, i as int);
                lemma_ctes_rewritten_push(c0, out@, i as int);
                lemma_frames_gained_trans(
                    s0.accumulator_stack@,
                    s1.accumulator_stack@,
                    self.accumulator_stack@,
                    ctes_refs(before),
                    query_refs(q),
                );
            }
            i = i + 1;
        }
        proof {
            assert(c0.take(n as int) =~= c0);
        }
        Ok(out)
    }

    /// Resolves a query body in the active scope and hands back its
    /// qualified form. Each branch of a set operation is resolved in a scope
    /// of its own, and the active scope then takes the output columns of the
    /// first branch, each depending on what the columns at its position
    /// depend on in both branches.
    pub fn resolve_set_expr(&mut self, body: &SetExpr) -> (r: Result<SetExpr, ResolutionError>)
        requires
            old(self).wf(),
        ensures
            r matches Ok(nb) ==> set_expr_rewritten(*body, nb),
            r matches Err(err) ==> set_expr_can_fail(*body, err),
            r matches Err(err) ==> set_expr_fails_with(final(self).scopes@, old(self).visible_scopes@, *body, err),
            final(self).wf(),
            final(self).continues_within(old(self)),
            !(r matches Err(ResolutionError::UnsupportedQueryType(_))),
            final(self).keeps_ctes(old(self)),
            !(*body is Select) ==> final(self).keeps_sources(old(self)),
            !(*body is Select) ==> final(self).keeps_roles(old(self)),
            r matches Ok(nb) ==> frames_gained(
                old(self).accumulator_stack@,
                final(self).accumulator_stack@,
                set_expr_refs(nb),
            ),
            r matches Ok(nb) ==> match nb {
                SetExpr::Select(s) => select_applied(
                    old(self).scopes@[old(self).active_scope as int],
                    final(self).old_active(old(self)),
                    *s,
                ),
                _ => true,
            },
            r matches Ok(nb) ==> body_outputs(
                final(self).scopes@,
                old(self).active_scope as int,
                selected_views(old(self).scopes@[old(self).active_scope as int]),
                nb,
            ),
            r matches Ok(nb) ==> set_expr_select_resolved(
                final(self).scopes@,
                old(self).visible_scopes@,
                *body,
                nb,
            ),
            match *body {
                SetExpr::Select(s) => from_cte_tables(old(self).scopes@, old(self).visible_scopes@, s.from@)
                    && select_ok(final(self).scopes@, old(self).visible_scopes@, *s) ==> r is Ok,
                _ => true,
            },
            match *body {
                SetExpr::Select(s) => from_flat(s.from@) && select_plain(*s) ==> final(self).scopes@.len()
                    == old(self).scopes@.len(),
                _ => true,
            },
            match *body {
                SetExpr::Select(s) => from_cte_tables(old(self).scopes@, old(self).visible_scopes@, s.from@)
                    && select_plain(*s) ==> !(r matches Err(ResolutionError::TableNotFound(_))),
                _ => true,
            },
            match *body {
                SetExpr::Select(s) => (r is Ok || (r matches Err(err) && !from_can_fail(s.from@, err)))
                    ==> sources_for(
                    final(self).scopes@,
                    old(self).visible_scopes@,
                    final(self).old_active(old(self)).sources.entries@.skip(
                        old(self).scopes@[old(self).active_scope as int].sources.entries@.len() as int,
                    ),
                    from_factors(s.from@),
                ),
                _ => true,
            },
            forall|names: Seq<Seq<char>>|
                #![trigger set_expr_tables_among(*body, names)]
                names_bound(old(self).scopes@, old(self).visible_scopes@, names) && set_expr_tables_among(*body, names)
                    ==> !(r matches Err(ResolutionError::TableNotFound(_))),
        decreases body, 0nat,
    {
        let ghost s0 = *self;
        match body {
            SetExpr::Select(select) => {
                let r = self.resolve_select(&**select);
                proof {
                    assert forall|names: Seq<Seq<char>>|
                        names_bound(s0.scopes@, s0.visible_scopes@, names) && #[trigger] set_expr_tables_among(
                            *body,
                            names,
                        ) implies !(r matches Err(ResolutionError::TableNotFound(_))) by {
                        assert(from_tables_among(select.from@, names));
                    }
                }
                let s = r?;
                Ok(SetExpr::Select(Box::new(s)))
            },
            SetExpr::Query(query) => {
                let m = self.scopes.len();
                let r = self.resolve_query(&**query, ScopeType::Subquery, true);
                proof {
                    lemma_continues_within(&s0, self);
                    assert(subquery_scope(self.scopes@, s0.visible_scopes@, m));
                    assert forall|names: Seq<Seq<char>>|
                        names_bound(s0.scopes@, s0.visible_scopes@, names) && #[trigger] set_expr_tables_among(
                            *body,
                            names,
                        ) implies !(r matches Err(ResolutionError::TableNotFound(_))) by {
                        assert(query_tables_among(**query, names));
                    }
                }
                let q = r?;
                let ghost s1 = *self;
                self.adopt_outputs(m, m);
                proof {
                    lemma_within_trans(&s0, &s1, self);
                    let a = s0.active_scope as int;
                    assert(same_but_children(s0.scopes@[a], s1.scopes@[a]));
                    assert(same_but_children(s1.scopes@[m as int], self.scopes@[m as int]));
                    assert(adopted_views(self.scopes@[m as int], self.scopes@[m as int]) =~= adopted_views(
                        s1.scopes@[m as int],
                        s1.scopes@[m as int],
                    ));
                    assert(self.scopes@[m as int].parent == a);
                    lemma_lookups_kept_within(&s1, self);
                    let vm = s0.visible_scopes@.push(m);
                    assert forall|j: int| 0 <= j < vm.len() implies #[trigger] vm[j] < s1.scopes@.len() by {
                        if j < s0.visible_scopes@.len() {
                            assert(vm[j] == s0.visible_scopes@[j]);
                        }
                    }
                    lemma_query_body_resolved_stable(s1.scopes@, self.scopes@, vm, **query, q);
                    assert(subquery_scope(self.scopes@, s0.visible_scopes@, m));
                }
                Ok(SetExpr::Query(Box::new(q)))
            },
            SetExpr::SetOperation { left, right } => {
                let l = self.scopes.len();
                self.branch_scope(ScopeType::SetOpBranch, true);
                let ghost b1 = *self;
                let r1 = self.resolve_set_expr(&**left);
                let ghost c1 = *self;
                self.exit_scope();
                proof {
                    lemma_branch_within_exit(&s0, &b1, &c1, self);
                    lemma_continues_within(&s0, self);
                    lemma_chain_bindings_kept(s0.scopes@, b1.scopes@, s0.visible_scopes@);
                    assert forall|names: Seq<Seq<char>>|
                        names_bound(s0.scopes@, s0.visible_scopes@, names) && #[trigger] set_expr_tables_among(
                            *body,
                            names,
                        ) implies !(r1 matches Err(ResolutionError::TableNotFound(_))) by {
                        lemma_names_bound_kept(s0.scopes@, b1.scopes@, s0.visible_scopes@, names);
                        lemma_names_bound_push(b1.scopes@, s0.visible_scopes@, l, names);
                        assert(set_expr_tables_among(**left, names));
                    }
                    assert(c1.scopes@[l as int].parent == s0.active_scope);
                    assert(c1.scopes@[l as int].scope_type == ScopeType::SetOpBranch);
                    assert(opened_scope(self.scopes@, s0.visible_scopes@, l, ScopeType::SetOpBranch, true));
                }
                let nl = r1?;
                let ghost s1 = *self;
                let rr = self.scopes.len();
                self.branch_scope(ScopeType::SetOpBranch, true);
                let ghost b2 = *self;
                let r2 = self.resolve_set_expr(&**right);
                let ghost c2 = *self;
                self.exit_scope();
                proof {
                    lemma_branch_within_exit(&s1, &b2, &c2, self);
                    lemma_continues_within(&s1, self);
                    lemma_within_trans(&s0, &s1, self);
                    let a = s0.active_scope as int;
                    assert(same_but_children(s0.scopes@[a], s1.scopes@[a]));
                    assert(s1.scopes@[a].ctes@.take(s0.scopes@[a].ctes@.len() as int) =~= s0.scopes@[a].ctes@);
                    lemma_chain_bindings_within(&s0, &s1);
                    lemma_chain_bindings_kept(s1.scopes@, b2.scopes@, s0.visible_scopes@);
                    assert forall|names: Seq<Seq<char>>|
                        names_bound(s0.scopes@, s0.visible_scopes@, names) && #[trigger] set_expr_tables_among(
                            *body,
                            names,
                        ) implies !(r2 matches Err(ResolutionError::TableNotFound(_))) by {
                        lemma_names_bound_kept(s0.scopes@, s1.scopes@, s0.visible_scopes@, names);
                        lemma_names_bound_kept(s1.scopes@, b2.scopes@, s0.visible_scopes@, names);
                        lemma_names_bound_push(b2.scopes@, s0.visible_scopes@, rr, names);
                        assert(set_expr_tables_among(**right, names));
                    }
                    assert(c2.scopes@[rr as int].parent == s0.active_scope);
                    assert(c2.scopes@[rr as int].scope_type == ScopeType::SetOpBranch);
                    assert(opened_scope(self.scopes@, s0.visible_scopes@, rr, ScopeType::SetOpBranch, true));
                }
                let nr = r2?;
                let ghost s2 = *self;
                self.adopt_outputs(l, rr);
                proof {
                    lemma_within_trans(&s0, &s2, self);
                    let a = s0.active_scope as int;
                    assert(same_but_children(s0.scopes@[a], s2.scopes@[a]));
                    assert(same_but_children(s2.scopes@[l as int], self.scopes@[l as int]));
                    assert(same_but_children(s2.scopes@[rr as int], self.scopes@[rr as int]));
                    assert(c1.scopes@[l as int].parent == a);
                    assert(c1.scopes@[l as int].scope_type == ScopeType::SetOpBranch);
                    assert(same_but_children(s1.scopes@[l as int], b2.scopes@[l as int]));
                    assert(same_but_children(b2.scopes@[l as int], c2.scopes@[l as int]));
                    assert(c2.scopes@[rr as int].parent == a);
                    assert(c2.scopes@[rr as int].scope_type == ScopeType::SetOpBranch);
                    assert(adopted_views(self.scopes@[l as int], self.scopes@[rr as int]) =~= adopted_views(
                        s2.scopes@[l as int],
                        s2.scopes@[rr as int],
                    ));
                    lemma_frames_gained_trans(
                        s0.accumulator_stack@,
                        s1.accumulator_stack@,
                        s2.accumulator_stack@,
                        set_expr_refs(nl),
                        set_expr_refs(nr),
                    );
                    let vl = s0.visible_scopes@.push(l);
                    let vr = s0.visible_scopes@.push(rr);
                    assert forall|j: int| 0 <= j < vl.len() implies #[trigger] vl[j] < s1.scopes@.len() by {
                        if j < s0.visible_scopes@.len() {
                            assert(vl[j] == s0.visible_scopes@[j]);
                        }
                    }
                    assert forall|j: int| 0 <= j < vr.len() implies #[trigger] vr[j] < s2.scopes@.len() by {
                        if j < s0.visible_scopes@.len() {
                            assert(vr[j] == s0.visible_scopes@[j]);
                        }
                    }
                    lemma_lookups_kept_within(&s1, self);
                    lemma_lookups_kept_within(&s2, self);
                    lemma_set_expr_resolved_stable(s1.scopes@, self.scopes@, vl, **left, nl);
                    lemma_set_expr_resolved_stable(s2.scopes@, self.scopes@, vr, **right, nr);
                    assert(opened_scope(self.scopes@, s0.visible_scopes@, l, ScopeType::SetOpBranch, true));
                    assert(opened_scope(self.scopes@, s0.visible_scopes@, rr, ScopeType::SetOpBranch, true));
                }
                Ok(SetExpr::SetOperation { left: Box::new(nl), right: Box::new(nr) })
            },
        }
    }

    /// The output names of scope `id`.
    pub fn output_names(&self, id: usize) -> (names: Vec<String>)
        requires
            id < self.scopes@.len(),
        ensures
            names@.map_values(|s: String| s@) == output_names_of(self.scopes@[id as int]),
    {
        let cols = &self.scopes[id].selected_columns;
        let mut names: Vec<String> = Vec::new();
        let mut k: usize = 0;
        while k < cols.len()
            invariant
                0 <= k <= cols.len(),
                id < self.scopes@.len(),
                cols == &self.scopes@[id as int].selected_columns,
                names@.len() == k,
                forall|j: int| 0 <= j < k ==> #[trigger] names@[j]@ == cols@[j].name@,
            decreases cols.len() - k,
        {
            names.push(cols[k].name.clone());
            k = k + 1;
        }
        assert(names@.map_values(|s: String| s@) =~= output_names_of(self.scopes@[id as int]));
        names
    }

    /// Appends to the active scope's SELECT list the output columns of scope
    /// `first`, each depending on what its column depends on and on what the
    /// column at the same position of scope `second` depends on.
    pub fn adopt_outputs(&mut self, first: usize, second: usize)
        requires
            old(self).wf(),
            first < old(self).scopes@.len(),
            second < old(self).scopes@.len(),
            first != old(self).active_scope,
            second != old(self).active_scope,
        ensures
            final(self).wf(),
            final(self).continues_within(old(self)),
            final(self).accumulator_stack == old(self).accumulator_stack,
            final(self).keeps_sources(old(self)),
            final(self).keeps_ctes(old(self)),
            final(self).keeps_roles(old(self)),
            output_names_of(final(self).scopes@[old(self).active_scope as int]) == output_names_of(
                old(self).scopes@[old(self).active_scope as int],
            ) + output_names_of(old(self).scopes@[first as int]),
            selected_views(final(self).old_active(old(self))) == selected_views(
                old(self).scopes@[old(self).active_scope as int],
            ) + adopted_views(old(self).scopes@[first as int], old(self).scopes@[second as int]),
    {
        let ghost s0 = *self;
        let ghost a = self.active_scope as int;
        let n = self.scopes[first].selected_columns.len();
        proof {
            lemma_continues_refl(self);
            lemma_continues_within(&s0, self);
            assert(output_names_of(s0.scopes@[first as int]).take(0) =~= Seq::<Seq<char>>::empty());
            assert(output_names_of(self.scopes@[a]) =~= output_names_of(s0.scopes@[a])
                + output_names_of(s0.scopes@[first as int]).take(0));
            assert(selected_views(self.scopes@[a]) =~= selected_views(s0.scopes@[a])
                + adopted_views(s0.scopes@[first as int], s0.scopes@[second as int]).take(0));
        }
        let mut k: usize = 0;
        while k < n
            invariant
                0 <= k <= n,
                s0 == *old(self),
                s0.wf(),
                a == s0.active_scope,
                first < s0.scopes@.len(),
                second < s0.scopes@.len(),
                first != s0.active_scope,
                second != s0.active_scope,
                selected_views(self.scopes@[a]) == selected_views(s0.scopes@[a])
                    + adopted_views(s0.scopes@[first as int], s0.scopes@[second as int]).take(k as int),
                n == s0.scopes@[first as int].selected_columns@.len(),
                self.wf(),
                self.continues_within(&s0),
                self.accumulator_stack == s0.accumulator_stack,
                self.scopes@.len() == s0.scopes@.len(),
                self.keeps_sources(&s0),
                self.keeps_ctes(&s0),
                self.keeps_roles(&s0),
                forall|i: int|
                    0 <= i < s0.scopes@.len() && i != a ==> #[trigger] self.scopes@[i] == s0.scopes@[i],
                output_names_of(self.scopes@[a]) == output_names_of(s0.scopes@[a])
                    + output_names_of(s0.scopes@[first as int]).take(k as int),
            decreases n - k,
        {
            let name = self.scopes[first].selected_columns[k].name.clone();
            let mut deps = self.scopes[first].selected_columns[k].dependencies.duplicate();
            if k < self.scopes[second].selected_columns.len() {
                deps.extend(&self.scopes[second].selected_columns[k].dependencies);
            }
            let ghost s1 = *self;
            let ghost added_name = name@;
            let ghost added = SelectedColumn { name, dependencies: deps };
            self.add_selected(SelectedColumn { name, dependencies: deps });
            proof {
                lemma_within_trans(&s0, &s1, self);
                assert(output_names_of(s0.scopes@[first as int]).take(k + 1) =~= output_names_of(
                    s0.scopes@[first as int],
                ).take(k as int).push(added_name));
                assert(output_names_of(self.scopes@[a]) =~= output_names_of(s1.scopes@[a]).push(
                    added_name,
                ));
                let av = adopted_views(s0.scopes@[first as int], s0.scopes@[second as int]);
                assert(column_view(added) == av[k as int]);
                assert(av.take(k + 1) =~= av.take(k as int).push(av[k as int]));
                assert(selected_views(self.scopes@[a]) =~= selected_views(s1.scopes@[a]).push(
                    column_view(added),
                ));
            }
            k = k + 1;
        }
        proof {
            assert(output_names_of(s0.scopes@[first as int]).take(n as int) =~= output_names_of(
                s0.scopes@[first as int],
            ));
            assert(adopted_views(s0.scopes@[first as int], s0.scopes@[second as int]).take(n as int)
                =~= adopted_views(s0.scopes@[first as int], s0.scopes@[second as int]));
        }
    }
}

} // verus!
