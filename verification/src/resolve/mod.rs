//! The resolver: scope bookkeeping and the entry point.
pub mod column;
pub mod errors;
pub mod expr;
pub mod failures;
pub mod from;
pub mod function;
pub mod laws;
pub mod query;
pub mod refs;
pub mod rewrite;
pub mod select;
pub mod scope;

use vstd::prelude::*;

use crate::ast::{Query, SetExpr, Statement};
use self::from::{from_cte_tables, from_factors, sources_for};
use crate::schema::SchemaProvider;
use self::errors::ResolutionError;
use self::failures::{ctes_can_fail, from_can_fail, query_can_fail};
use self::query::{names_bound, query_tables_among, 
    body_outputs, cte_aliases, ctes_bound, ctes_closed, from_names_among, query_fails_with, query_flat,
    query_scope,
};
use self::refs::{exprs_lookups_found, exprs_plain, lookups_kept, lookups_kept_except, bindings_grown_except, query_body_resolved};
use self::select::{select_ok, select_plain};
use self::rewrite::query_rewritten;
use self::scope::sources::{ResolvedSource, SourceEntry};
use self::scope::{ColumnKey, ColumnRef, ColumnSet, CteBinding, ResolvedScope, ScopeType, SelectedColumn};

verus! {

/// Index of a scope in the scope arena.
pub type ScopeId = usize;

/// Options of a resolution. They are accepted and kept, and no step of the
/// resolution reads them.
pub struct ResolutionOptions {
    pub expand_select_wildcards: bool,
    pub qualify: bool,
}

/// Resolves statements against the schemas of a schema provider.
pub struct Resolver<T: SchemaProvider> {
    pub schema_provider: T,
    pub options: ResolutionOptions,
}

impl<T: SchemaProvider> Resolver<T> {
    pub fn new(schema_provider: T, options: ResolutionOptions) -> (r: Resolver<T>)
        ensures
            r.schema_provider == schema_provider,
            r.options == options,
    {
        Resolver { schema_provider, options }
    }

    /// Resolves a statement and leaves it as it is. Only queries are
    /// supported; any other statement fails with `UnsupportedQueryType`. Any
    /// other error is one that the query can end in (`query_can_fail`): it
    /// names a column reference, a table name, a wildcard qualifier or a
    /// FROM-item kind of the query, and some arena rooted as a resolution's
    /// is explains it (`query_failed_in`): a failed lookup or wildcard
    /// qualifier at any depth, in the scope opened there for the nested query
    /// it sits in (subquery, CTE, derived table, set-operation branch), or a
    /// table name that no visible CTE binds; an error inside a SELECT block
    /// comes only once its FROM items are registered as their sources. The
    /// arena that was built is dropped on failure. On success, the scopes
    /// form a tree rooted at the boundary scope 0, whose child scope 1 holds
    /// what resolving the query leaves there (`query_resolved_in`): every
    /// column reference, at any depth, is qualified by the source that its
    /// lookup from its own scope finds: in a SELECT list, WHERE, GROUP BY,
    /// HAVING or ORDER BY once the FROM clause is registered; in a join
    /// condition, a table function's arguments, a pivot's expressions or a
    /// `LATERAL` derived table, against the sources registered before it
    /// (`factor_resolved`). Each nested query (subquery, CTE, derived table,
    /// set-operation branch) is resolved in a scope of its own type under the
    /// scope it sits in, open to outer lookups exactly where that kind of
    /// nested query allows it, a CTE's query seeing only the CTEs bound
    /// before it. In every scope, a named table is registered as the CTE
    /// that a visible binding gives its one-part name, else as the base
    /// table of that name (`source_for`), and a derived table as its own
    /// scope, whose output names are its columns. The
    /// sources that the references resolved to are reported through the
    /// scopes' dependency and role-tagged column sets. A query that opens no
    /// scope of its own (`query_flat`) leaves exactly the boundary and the
    /// root scope; one whose FROM items all name its own CTEs, each a
    /// `cte_closed` query, and that holds no nested query, does not fail with
    /// `TableNotFound`, nor does one that, at any depth, names tables only by
    /// CTEs visible where they stand and holds no nested query in an
    /// expression (`query_tables_among`).
    pub fn resolve(&self, statement: &mut Statement) -> (r: Result<Vec<ResolvedScope>, ResolutionError>)
        ensures
            (r matches Err(ResolutionError::UnsupportedQueryType(_))) <==> (*old(statement) is Other),
            r matches Err(ResolutionError::UnsupportedQueryType(name)) ==> name@
                == unsupported_statement_name(),
            r matches Err(err) ==> (err is UnsupportedQueryType || (*old(statement) matches Statement::Query(
                q,
            ) && query_can_fail(*q, err))),
            r matches Err(err) ==> (err is UnsupportedQueryType || (*old(statement) matches Statement::Query(
                q,
            ) && exists|scopes: Seq<ResolvedScope>| #[trigger] query_failed_in(scopes, *q, err))),
            *final(statement) == *old(statement),
            r matches Ok(scopes) ==> resolution_wf(scopes@),
            r matches Ok(scopes) ==> forall|i: int|
                0 <= i < scopes@.len() && i != 1 ==> (#[trigger] scopes@[i]).scope_type != ScopeType::Root,
            r matches Ok(scopes) ==> *old(statement) matches Statement::Query(q) ==> query_flat(*q)
                ==> scopes@.len() == 2,
            *old(statement) matches Statement::Query(q) ==> *q.body matches SetExpr::Select(s) ==> (
            ctes_closed(q.with@) && from_names_among(s.from@, cte_aliases(q.with@)) && select_plain(*s)
                && exprs_plain(q.order_by@) ==> !(r matches Err(ResolutionError::TableNotFound(_)))),
            *old(statement) matches Statement::Query(q) ==> (query_tables_among(*q, Seq::empty())
                ==> !(r matches Err(ResolutionError::TableNotFound(_)))),
            r matches Ok(scopes) ==> (*old(statement) matches Statement::Query(q) && query_resolved_in(
                scopes@,
                seq![0usize, 1usize],
                1,
                *q,
            )),
    {
        let mut cx = ResolutionContext::new(self);
        let ghost c0 = cx;
        let r = cx.resolve_statement(statement);
        proof {
            assert(c0.scopes@.len() as int == 1);
            assert(c0.visible_scopes@.push(1usize) =~= seq![0usize, 1usize]);
            if r is Err && *statement is Query {
                assert(same_but_children(c0.scopes@[0], cx.scopes@[0]));
                assert(query_failed_in(cx.scopes@, *statement->Query_0, r->Err_0));
            }
        }
        r?;
        Ok(cx.scopes)
    }
}

/// `nq` is the qualified form of query `q` (`query_rewritten`), each column
/// reference of its SELECT block and ORDER BY list, and of every query nested
/// in them, in its CTEs, its derived tables or its set-operation branches,
/// qualified by the source that its lookup from its own scope finds
/// (`query_body_resolved`, from scope `id`, the last of `visible`, with
/// the FROM items of every SELECT block registered as `factor_resolved`
/// says); scope `id` of `scopes` holds what resolving `q` in it leaves there (`query_scope`, `body_outputs`), and each of its
/// sources is what the FROM item at its position resolves to
/// (`sources_for`: a table or CTE of that name, a derived table with its own
/// child scope, a table function); each CTE it binds names a CTE scope under
/// scope `id` and lists that scope's output columns (`ctes_bound`).
pub open spec fn query_resolution(
    scopes: Seq<ResolvedScope>,
    visible: Seq<usize>,
    id: int,
    q: Query,
    nq: Query,
) -> bool {
    &&& query_rewritten(q, nq)
    &&& query_body_resolved(scopes, visible, q, nq)
    &&& match *q.body {
        SetExpr::Select(s) => sources_for(scopes, visible, scopes[id].sources.entries@, from_factors(s.from@)),
        _ => true,
    }
    &&& query_scope(scopes[id], nq)
    &&& ctes_bound(scopes, id, 0)
    &&& body_outputs(scopes, id, Seq::empty(), *nq.body)
}

/// Resolving query `q` in scope 1 of arena `scopes`, a root scope under the
/// boundary scope 0, can end in `err` there: a failed lookup or wildcard
/// qualifier against that arena, or an error of its WITH list or FROM
/// clause (`query_fails_with`); and for a SELECT body, any other error comes
/// only after each FROM item found its source (`sources_for`).
pub open spec fn query_failed_in(scopes: Seq<ResolvedScope>, q: Query, err: ResolutionError) -> bool {
    &&& scopes.len() >= 2
    &&& scopes[0].scope_type == ScopeType::Boundary
    &&& scopes[1].scope_type == ScopeType::Root
    &&& scopes[1].parent == 0
    &&& query_fails_with(scopes, seq![0usize, 1usize], q, err)
    &&& match *q.body {
        SetExpr::Select(s) => !ctes_can_fail(q.with@, err) && !from_can_fail(s.from@, err) ==> sources_for(
            scopes,
            seq![0usize, 1usize],
            scopes[1].sources.entries@,
            from_factors(s.from@),
        ),
        _ => true,
    }
}

/// Resolving query `q` in scope `id` of `scopes`, reached along `visible`,
/// left there what `query_resolution` says, for the qualified form of `q`
/// that it computed.
pub open spec fn query_resolved_in(scopes: Seq<ResolvedScope>, visible: Seq<usize>, id: int, q: Query) -> bool {
    exists|nq: Query| #[trigger] query_resolution(scopes, visible, id, q, nq)
}

/// The shape of a successful resolution: a tree of scopes (`arena_wf`) whose
/// scope 0 is the boundary scope and whose scope 1, a child of scope 0, is the
/// root query's scope.
pub open spec fn resolution_wf(scopes: Seq<ResolvedScope>) -> bool {
    &&& arena_wf(scopes)
    &&& scopes.len() >= 2
    &&& scopes[0].scope_type == ScopeType::Boundary
    &&& scopes[1].scope_type == ScopeType::Root
    &&& scopes[1].parent == 0
    &&& !scopes[1].allow_lateral
}

/// The name that an unsupported statement is reported under: the path of the
/// statement type of the SQL syntax tree.
pub open spec fn unsupported_statement_name() -> Seq<char> {
    "sqlparser::ast::Statement"@
}

/// Whether `c` is a proper child of scope `i`: a later scope whose parent is `i`.
pub open spec fn is_child_of(scopes: Seq<ResolvedScope>, i: int, c: usize) -> bool {
    &&& 0 < c < scopes.len()
    &&& scopes[c as int].parent == i
}

/// The shape of a scope arena: scope `i` sits at index `i`, scope 0 is its own
/// parent, every other scope's parent comes before it, and each scope's
/// `children` lists, in increasing order, exactly the scopes whose parent it is.
pub open spec fn arena_wf(scopes: Seq<ResolvedScope>) -> bool {
    &&& scopes.len() >= 1
    &&& scopes[0].parent == 0
    &&& forall|i: int| 0 <= i < scopes.len() ==> #[trigger] scopes[i].id == i
    &&& forall|i: int| 0 < i < scopes.len() ==> #[trigger] scopes[i].parent < i
    &&& forall|i: int, k: int|
        0 <= i < scopes.len() && 0 <= k < scopes[i].children@.len() ==> is_child_of(
            scopes,
            i,
            #[trigger] scopes[i].children@[k],
        )
    &&& forall|i: int, k1: int, k2: int|
        0 <= i < scopes.len() && 0 <= k1 < k2 < scopes[i].children@.len()
            ==> #[trigger] scopes[i].children@[k1] < #[trigger] scopes[i].children@[k2]
    &&& forall|j: int|
        0 < j < scopes.len() ==> #[trigger] scopes[scopes[j].parent as int].children@.contains(
            j as usize,
        )
}

/// `visible` is the chain of scopes from scope 0 down to `active`, each the
/// parent of the next.
pub open spec fn path_wf(scopes: Seq<ResolvedScope>, visible: Seq<usize>, active: usize) -> bool {
    &&& visible.len() >= 1
    &&& visible[0] == 0
    &&& visible.last() == active
    &&& forall|k: int| 0 <= k < visible.len() ==> #[trigger] visible[k] < scopes.len()
    &&& forall|k: int|
        0 < k < visible.len() ==> #[trigger] visible[k] > 0 && scopes[visible[k] as int].parent
            == visible[k - 1]
}

/// No scope of `scopes` from index `from` on is a root scope: only a
/// statement's query opens one.
pub open spec fn no_roots_from(scopes: Seq<ResolvedScope>, from: int) -> bool {
    forall|i: int| from <= i < scopes.len() ==> (#[trigger] scopes[i]).scope_type != ScopeType::Root
}

/// Two versions of a scope that differ at most in their list of children.
pub open spec fn same_but_children(a: ResolvedScope, b: ResolvedScope) -> bool {
    &&& a.id == b.id
    &&& a.parent == b.parent
    &&& a.scope_type == b.scope_type
    &&& a.allow_lateral == b.allow_lateral
    &&& a.sources == b.sources
    &&& a.ctes == b.ctes
    &&& a.selected_columns == b.selected_columns
    &&& a.join_columns == b.join_columns
    &&& a.filter_columns == b.filter_columns
    &&& a.group_by_columns == b.group_by_columns
    &&& a.sort_columns == b.sort_columns
}

/// `new` extends `old`: no scope is dropped and the old scopes are unchanged
/// but for the children they gained.
pub open spec fn bindings_kept(old: Seq<ResolvedScope>, new: Seq<ResolvedScope>) -> bool {
    &&& old.len() <= new.len()
    &&& forall|i: int| 0 <= i < old.len() ==> same_but_children(#[trigger] old[i], new[i])
}

/// Every frame of `new` is the frame of `old` with the keys of `s` added.
pub open spec fn frames_gained(old: Seq<ColumnSet>, new: Seq<ColumnSet>, s: Set<ColumnKey>) -> bool {
    &&& old.len() == new.len()
    &&& forall|f: int| 0 <= f < old.len() ==> #[trigger] new[f]@ == old[f]@.union(s)
}

/// Every frame of `new` holds at least the frame of `old`.
pub open spec fn frames_grown(old: Seq<ColumnSet>, new: Seq<ColumnSet>) -> bool {
    &&& old.len() == new.len()
    &&& forall|f: int| 0 <= f < old.len() ==> (#[trigger] old[f]@).subset_of(new[f]@)
}

/// The state of one resolution: the scope arena, the active scope, the chain
/// of scopes from the outermost one to the active one, and a stack of
/// accumulators that collect the column references resolved while they are
/// open.
pub struct ResolutionContext<'r, T: SchemaProvider> {
    pub resolver: &'r Resolver<T>,
    pub scopes: Vec<ResolvedScope>,
    pub active_scope: ScopeId,
    pub visible_scopes: Vec<ScopeId>,
    pub accumulator_stack: Vec<ColumnSet>,
}

impl<'r, T: SchemaProvider> ResolutionContext<'r, T> {
    /// The arena is a tree and `visible_scopes` is the path to the active scope.
    pub open spec fn wf(&self) -> bool {
        &&& arena_wf(self.scopes@)
        &&& path_wf(self.scopes@, self.visible_scopes@, self.active_scope)
    }

    /// `self` continues `old`: same resolver, same position in the tree,
    /// the old scopes unchanged but for new children, every accumulator
    /// still holding what it held.
    pub open spec fn continues(&self, old: &Self) -> bool {
        &&& self.continues_base(old)
        &&& no_roots_from(self.scopes@, old.scopes@.len() as int)
    }

    /// As `continues`, with nothing said of the types of the new scopes.
    pub open spec fn continues_base(&self, old: &Self) -> bool {
        &&& self.resolver == old.resolver
        &&& self.active_scope == old.active_scope
        &&& self.visible_scopes@ == old.visible_scopes@
        &&& bindings_kept(old.scopes@, self.scopes@)
        &&& frames_grown(old.accumulator_stack@, self.accumulator_stack@)
    }

    /// `self` continues `old` inside its active scope: as `continues`, except
    /// that the active scope's sources and CTEs may have changed.
    pub open spec fn continues_within(&self, old: &Self) -> bool {
        &&& self.resolver == old.resolver
        &&& self.active_scope == old.active_scope
        &&& self.visible_scopes@ == old.visible_scopes@
        &&& old.scopes@.len() <= self.scopes@.len()
        &&& forall|i: int|
            0 <= i < old.scopes@.len() && i != old.active_scope ==> same_but_children(
                #[trigger] old.scopes@[i],
                self.scopes@[i],
            )
        &&& self.scopes@[old.active_scope as int].id == old.scopes@[old.active_scope as int].id
        &&& self.scopes@[old.active_scope as int].parent == old.scopes@[old.active_scope as int].parent
        &&& self.scopes@[old.active_scope as int].scope_type == old.scopes@[old.active_scope as int].scope_type
        &&& self.scopes@[old.active_scope as int].allow_lateral == old.scopes@[old.active_scope as int].allow_lateral
        &&& frames_grown(old.accumulator_stack@, self.accumulator_stack@)
        &&& no_roots_from(self.scopes@, old.scopes@.len() as int)
    }

    /// The active scope of `old`, as it is in `self`.
    pub open spec fn old_active(&self, old: &Self) -> ResolvedScope {
        self.scopes@[old.active_scope as int]
    }

    /// The active scope's sources are as they were in `old`.
    pub open spec fn keeps_sources(&self, old: &Self) -> bool {
        self.old_active(old).sources == old.scopes@[old.active_scope as int].sources
    }

    /// The active scope's CTEs are as they were in `old`.
    pub open spec fn keeps_ctes(&self, old: &Self) -> bool {
        self.old_active(old).ctes == old.scopes@[old.active_scope as int].ctes
    }

    /// The active scope's SELECT list is as it was in `old`.
    pub open spec fn keeps_selected(&self, old: &Self) -> bool {
        self.old_active(old).selected_columns == old.scopes@[old.active_scope as int].selected_columns
    }

    /// The active scope's role-tagged column sets are as they were in `old`.
    pub open spec fn keeps_roles(&self, old: &Self) -> bool {
        role_sets(self.old_active(old)) == role_sets(old.scopes@[old.active_scope as int])
    }

    /// `self` is `old` with only the content (sources, CTEs, selected and
    /// role-tagged columns) of the active scope changed.
    pub open spec fn only_active_content_changed(&self, old: &Self) -> bool {
        let a = old.active_scope as int;
        &&& self.resolver == old.resolver
        &&& self.active_scope == old.active_scope
        &&& self.visible_scopes == old.visible_scopes
        &&& self.accumulator_stack == old.accumulator_stack
        &&& self.scopes@.len() == old.scopes@.len()
        &&& forall|i: int| 0 <= i < old.scopes@.len() && i != a ==> #[trigger] self.scopes@[i] == old.scopes@[i]
        &&& self.scopes@[a].id == old.scopes@[a].id
        &&& self.scopes@[a].parent == old.scopes@[a].parent
        &&& self.scopes@[a].children == old.scopes@[a].children
        &&& self.scopes@[a].scope_type == old.scopes@[a].scope_type
        &&& self.scopes@[a].allow_lateral == old.scopes@[a].allow_lateral
    }

    /// A context with the single boundary scope 0 active and no accumulator.
    pub fn new(resolver: &'r Resolver<T>) -> (cx: Self)
        ensures
            cx.wf(),
            cx.resolver == resolver,
            cx.scopes@.len() == 1,
            cx.scopes@[0].scope_type == ScopeType::Boundary,
            !cx.scopes@[0].allow_lateral,
            cx.scopes@[0].sources.entries@.len() == 0,
            cx.scopes@[0].ctes@.len() == 0,
            cx.scopes@[0].selected_columns@.len() == 0,
            role_sets(cx.scopes@[0]) == (
                Set::<ColumnKey>::empty(),
                Set::<ColumnKey>::empty(),
                Set::<ColumnKey>::empty(),
                Set::<ColumnKey>::empty(),
            ),
            cx.active_scope == 0,
            cx.visible_scopes@ == seq![0usize],
            cx.accumulator_stack@.len() == 0,
    {
        let mut scopes: Vec<ResolvedScope> = Vec::new();
        scopes.push(ResolvedScope::new(0, 0, ScopeType::Boundary, false));
        let mut visible_scopes: Vec<ScopeId> = Vec::new();
        visible_scopes.push(0);
        ResolutionContext {
            resolver,
            scopes,
            active_scope: 0,
            visible_scopes,
            accumulator_stack: Vec::new(),
        }
    }

    /// Pushes a fresh, empty accumulator onto the column-dependency stack.
    pub fn push_accumulator(&mut self)
        ensures
            final(self).accumulator_stack@.len() == old(self).accumulator_stack@.len() + 1,
            forall|f: int|
                0 <= f < old(self).accumulator_stack@.len() ==> #[trigger] final(self).accumulator_stack@[f] == old(self).accumulator_stack@[f],
            final(self).accumulator_stack@.last()@ == Set::<ColumnKey>::empty(),
            final(self).resolver == old(self).resolver,
            final(self).scopes == old(self).scopes,
            final(self).active_scope == old(self).active_scope,
            final(self).visible_scopes == old(self).visible_scopes,
    {
        self.accumulator_stack.push(ColumnSet::new());
    }

    /// Pops the top accumulator and hands back what it collected.
    pub fn pop_accumulator(&mut self) -> (top: ColumnSet)
        requires
            old(self).accumulator_stack@.len() > 0,
        ensures
            final(self).accumulator_stack@ == old(self).accumulator_stack@.drop_last(),
            top == old(self).accumulator_stack@.last(),
            final(self).resolver == old(self).resolver,
            final(self).scopes == old(self).scopes,
            final(self).active_scope == old(self).active_scope,
            final(self).visible_scopes == old(self).visible_scopes,
    {
        self.accumulator_stack.pop().unwrap()
    }

    /// Records a column reference into every open accumulator, so that it
    /// counts for every expression being resolved at any depth of nesting.
    pub fn record_column(&mut self, col: ColumnRef)
        ensures
            frames_gained(
                old(self).accumulator_stack@,
                final(self).accumulator_stack@,
                set![col@],
            ),
            final(self).resolver == old(self).resolver,
            final(self).scopes == old(self).scopes,
            final(self).active_scope == old(self).active_scope,
            final(self).visible_scopes == old(self).visible_scopes,
    {
        let n = self.accumulator_stack.len();
        let mut i: usize = 0;
        while i < n
            invariant
                0 <= i <= n,
                n == self.accumulator_stack@.len(),
                n == old(self).accumulator_stack@.len(),
                forall|f: int|
                    0 <= f < i ==> #[trigger] self.accumulator_stack@[f]@ == old(self).accumulator_stack@[f]@.insert(col@),
                forall|f: int|
                    i <= f < n ==> #[trigger] self.accumulator_stack@[f] == old(self).accumulator_stack@[f],
                self.resolver == old(self).resolver,
                self.scopes == old(self).scopes,
                self.active_scope == old(self).active_scope,
                self.visible_scopes == old(self).visible_scopes,
            decreases n - i,
        {
            let c = col.duplicate();
            self.accumulator_stack[i].insert(c);
            i = i + 1;
        }
        assert forall|f: int| 0 <= f < n implies #[trigger] self.accumulator_stack@[f]@
            == old(self).accumulator_stack@[f]@.union(set![col@]) by {
            assert(old(self).accumulator_stack@[f]@.insert(col@) =~= old(self).accumulator_stack@[f]@.union(set![col@]));
        }
    }

    /// Opens a new scope as the last child of the active scope and makes it
    /// active.
    pub fn branch_scope(&mut self, scope_type: ScopeType, allow_lateral: bool)
        requires
            old(self).active_scope < old(self).scopes@.len(),
        ensures
            old(self).wf() ==> final(self).wf(),
            final(self).resolver == old(self).resolver,
            final(self).scopes@.len() == old(self).scopes@.len() + 1,
            final(self).active_scope == old(self).scopes@.len(),
            final(self).visible_scopes@ == old(self).visible_scopes@.push(
                old(self).scopes@.len() as usize,
            ),
            final(self).accumulator_stack == old(self).accumulator_stack,
            bindings_kept(old(self).scopes@, final(self).scopes@),
            ({
                let s = final(self).scopes@.last();
                &&& s.id == old(self).scopes@.len()
                &&& s.parent == old(self).active_scope
                &&& s.scope_type == scope_type
                &&& s.allow_lateral == allow_lateral
                &&& s.children@.len() == 0
                &&& s.sources.entries@.len() == 0
                &&& s.ctes@.len() == 0
                &&& s.selected_columns@.len() == 0
                &&& role_sets(s) == (
                    Set::<ColumnKey>::empty(),
                    Set::<ColumnKey>::empty(),
                    Set::<ColumnKey>::empty(),
                    Set::<ColumnKey>::empty(),
                )
            }),
            final(self).scopes@[old(self).active_scope as int].children@ == old(self).scopes@[old(self).active_scope as int].children@.push(
                old(self).scopes@.len() as usize,
            ),
            forall|i: int|
                0 <= i < old(self).scopes@.len() && i != old(self).active_scope ==> #[trigger] final(self).scopes@[i] == old(self).scopes@[i],
    {
        let new_id = self.scopes.len();
        let parent_id = self.active_scope;
        let ghost old_scopes = self.scopes@;
        self.scopes.push(ResolvedScope::new(new_id, parent_id, scope_type, allow_lateral));
        self.scopes[parent_id].children.push(new_id);
        self.active_scope = new_id;
        self.visible_scopes.push(new_id);
        proof {
            let s = self.scopes@;
            assert(forall|i: int| 0 <= i < old_scopes.len() && i != parent_id ==> s[i] == old_scopes[i]);
            if old(self).wf() {
                assert forall|i: int, k: int|
                    0 <= i < s.len() && 0 <= k < s[i].children@.len() implies is_child_of(
                    s,
                    i,
                    #[trigger] s[i].children@[k],
                ) by {
                    if i != parent_id && i < old_scopes.len() {
                        assert(s[i].children@[k] == old_scopes[i].children@[k]);
                    } else if i == parent_id && k < old_scopes[i].children@.len() {
                        assert(s[i].children@[k] == old_scopes[i].children@[k]);
                    }
                }
                assert forall|i: int, k1: int, k2: int|
                    0 <= i < s.len() && 0 <= k1 < k2 < s[i].children@.len()
                        implies #[trigger] s[i].children@[k1] < #[trigger] s[i].children@[k2] by {
                    if i == parent_id {
                        assert(is_child_of(old_scopes, i, old_scopes[i].children@[k1]));
                    }
                }
                assert forall|j: int| 0 < j < s.len() implies #[trigger] s[s[j].parent as int].children@.contains(
                    j as usize,
                ) by {
                    if j < old_scopes.len() {
                        let p = old_scopes[j].parent as int;
                        assert(old_scopes[p].children@.contains(j as usize));
                        let k = choose|k: int|
                            0 <= k < old_scopes[p].children@.len() && old_scopes[p].children@[k]
                                == j as usize;
                        assert(s[p].children@[k] == j as usize);
                    } else {
                        assert(s[parent_id as int].children@.last() == j as usize);
                    }
                }
                assert forall|k: int| 0 < k < self.visible_scopes@.len() implies #[trigger] self.visible_scopes@[k]
                    > 0 && s[self.visible_scopes@[k] as int].parent == self.visible_scopes@[k
                    - 1] by {
                    if k < self.visible_scopes@.len() - 1 {
                        assert(self.visible_scopes@[k] == old(self).visible_scopes@[k]);
                    }
                }
            }
        }
    }

    /// The active scope, to change its content.
    pub fn active_scope(&mut self) -> (s: &mut ResolvedScope)
        requires
            old(self).active_scope < old(self).scopes@.len(),
        ensures
            *s == old(self).scopes@[old(self).active_scope as int],
            final(self).scopes@ == old(self).scopes@.update(
                old(self).active_scope as int,
                *final(s),
            ),
            final(self).resolver == old(self).resolver,
            final(self).active_scope == old(self).active_scope,
            final(self).visible_scopes == old(self).visible_scopes,
            final(self).accumulator_stack == old(self).accumulator_stack,
    {
        &mut self.scopes[self.active_scope]
    }

    /// Registers `source` under `name` in the active scope.
    pub fn add_source(&mut self, name: String, source: ResolvedSource)
        requires
            old(self).wf(),
        ensures
            final(self).wf(),
            final(self).only_active_content_changed(old(self)),
            final(self).continues_within(old(self)),
            final(self).scopes@[old(self).active_scope as int].sources.entries@ == old(
                self,
            ).scopes@[old(self).active_scope as int].sources.entries@.push(
                SourceEntry { name, source },
            ),
            final(self).scopes@[old(self).active_scope as int].ctes == old(
                self,
            ).scopes@[old(self).active_scope as int].ctes,
            final(self).scopes@[old(self).active_scope as int].selected_columns == old(
                self,
            ).scopes@[old(self).active_scope as int].selected_columns,
            role_sets(final(self).scopes@[old(self).active_scope as int]) == role_sets(
                old(self).scopes@[old(self).active_scope as int],
            ),
    {
        let s = self.active_scope();
        s.sources.push(name, source);
        proof {
            lemma_content_change_keeps_wf(old(self), self);
        }
    }

    /// Records a CTE definition in the active scope.
    pub fn add_cte(&mut self, binding: CteBinding)
        requires
            old(self).wf(),
        ensures
            final(self).wf(),
            final(self).only_active_content_changed(old(self)),
            final(self).continues_within(old(self)),
            final(self).scopes@[old(self).active_scope as int].ctes@ == old(
                self,
            ).scopes@[old(self).active_scope as int].ctes@.push(binding),
            final(self).scopes@[old(self).active_scope as int].sources == old(
                self,
            ).scopes@[old(self).active_scope as int].sources,
            final(self).scopes@[old(self).active_scope as int].selected_columns == old(
                self,
            ).scopes@[old(self).active_scope as int].selected_columns,
            role_sets(final(self).scopes@[old(self).active_scope as int]) == role_sets(
                old(self).scopes@[old(self).active_scope as int],
            ),
    {
        let s = self.active_scope();
        s.ctes.push(binding);
        proof {
            lemma_content_change_keeps_wf(old(self), self);
        }
    }

    /// Appends a column to the active scope's SELECT list.
    pub fn add_selected(&mut self, column: SelectedColumn)
        requires
            old(self).wf(),
        ensures
            final(self).wf(),
            final(self).only_active_content_changed(old(self)),
            final(self).continues_within(old(self)),
            final(self).scopes@[old(self).active_scope as int].selected_columns@ == old(
                self,
            ).scopes@[old(self).active_scope as int].selected_columns@.push(column),
            final(self).scopes@[old(self).active_scope as int].sources == old(
                self,
            ).scopes@[old(self).active_scope as int].sources,
            final(self).scopes@[old(self).active_scope as int].ctes == old(
                self,
            ).scopes@[old(self).active_scope as int].ctes,
            role_sets(final(self).scopes@[old(self).active_scope as int]) == role_sets(
                old(self).scopes@[old(self).active_scope as int],
            ),
    {
        let s = self.active_scope();
        s.selected_columns.push(column);
        proof {
            lemma_content_change_keeps_wf(old(self), self);
        }
    }

    /// Adds `cols` to one of the active scope's role-tagged column sets.
    pub fn tag_columns(&mut self, role: ColumnRole, cols: &ColumnSet)
        requires
            old(self).wf(),
        ensures
            final(self).wf(),
            final(self).only_active_content_changed(old(self)),
            final(self).continues_within(old(self)),
            ({
                let a = old(self).active_scope as int;
                let o = old(self).scopes@[a];
                let n = final(self).scopes@[a];
                &&& n.sources == o.sources
                &&& n.ctes == o.ctes
                &&& n.selected_columns == o.selected_columns
                &&& role_sets(n) == add_to_role(role_sets(o), role, cols@)
            }),
    {
        let s = self.active_scope();
        match role {
            ColumnRole::Join => s.join_columns.extend(cols),
            ColumnRole::Filter => s.filter_columns.extend(cols),
            ColumnRole::GroupBy => s.group_by_columns.extend(cols),
            ColumnRole::Sort => s.sort_columns.extend(cols),
        }
        proof {
            lemma_content_change_keeps_wf(old(self), self);
        }
    }

    /// Resolves a statement from the active scope: a query in a new root
    /// scope; any other statement is refused with the name of the statement
    /// type. The query resolves unless the arena it leaves explains a
    /// failure (`query_fails_with`). A failure is tied to the arena it leaves: a failed lookup or
    /// wildcard qualifier against it (`query_fails_with`), and for a SELECT
    /// body any error that its WITH list and FROM clause cannot end in comes
    /// only after every FROM item found its source. A query whose FROM items
    /// all name CTEs (visible ones, for a query without WITH list; its own,
    /// each defined by a `cte_closed` query, otherwise) does not fail with
    /// `TableNotFound` when it holds no nested query, and resolves when its
    /// lookups all find one source (`select_ok`); nor does one that, at any
    /// depth, names tables only by CTEs visible where they stand and holds no
    /// nested query in an expression (`query_tables_among`). A query that
    /// opens no scope of its own (`query_flat`) adds only the root scope.
    pub fn resolve_statement(&mut self, statement: &mut Statement) -> (r: Result<(), ResolutionError>)
        requires
            old(self).wf(),
        ensures
            final(self).wf(),
            final(self).continues_base(old(self)),
            no_roots_from(final(self).scopes@, old(self).scopes@.len() + 1int),
            (r matches Err(ResolutionError::UnsupportedQueryType(_))) <==> (*old(statement) is Other),
            r matches Err(ResolutionError::UnsupportedQueryType(name)) ==> name@
                == unsupported_statement_name(),
            r matches Err(err) ==> (err is UnsupportedQueryType || (*old(statement) matches Statement::Query(
                q,
            ) && query_can_fail(*q, err))),
            r matches Err(err) ==> (err is UnsupportedQueryType || (*old(statement) matches Statement::Query(
                q,
            ) && query_fails_with(
                final(self).scopes@,
                old(self).visible_scopes@.push(old(self).scopes@.len() as usize),
                *q,
                err,
            ))),
            *final(statement) == *old(statement),
            *old(statement) is Other ==> *final(self) == *old(self),
            *old(statement) is Query ==> ({
                let n = old(self).scopes@.len() as int;
                &&& final(self).scopes@.len() > n
                &&& final(self).scopes@[n].parent == old(self).active_scope
                &&& final(self).scopes@[n].scope_type == ScopeType::Root
                &&& !final(self).scopes@[n].allow_lateral
                &&& (r is Ok ==> (*old(statement) matches Statement::Query(q) && query_resolved_in(
                    final(self).scopes@,
                    old(self).visible_scopes@.push(n as usize),
                    n,
                    *q,
                )))
                &&& (*old(statement) matches Statement::Query(q) ==> query_flat(*q)
                    ==> final(self).scopes@.len() == n + 1)
                &&& (*old(statement) matches Statement::Query(q) ==> ((forall|err: ResolutionError|
                    !#[trigger] query_fails_with(
                        final(self).scopes@,
                        old(self).visible_scopes@.push(n as usize),
                        *q,
                        err,
                    )) ==> r is Ok))
                &&& (*old(statement) matches Statement::Query(q) ==> *q.body matches SetExpr::Select(s) ==> (
                q.with@.len() == 0 && from_cte_tables(old(self).scopes@, old(self).visible_scopes@, s.from@)
                    && select_plain(*s) && exprs_plain(q.order_by@) ==> !(r matches Err(
                    ResolutionError::TableNotFound(_),
                ))))
                &&& (*old(statement) matches Statement::Query(q) ==> *q.body matches SetExpr::Select(s) ==> (
                ctes_closed(q.with@) && from_names_among(s.from@, cte_aliases(q.with@)) && select_plain(*s)
                    && exprs_plain(q.order_by@) ==> !(r matches Err(ResolutionError::TableNotFound(_)))))
                &&& (*old(statement) matches Statement::Query(q) ==> *q.body matches SetExpr::Select(s) ==> (
                ctes_closed(q.with@) && from_names_among(s.from@, cte_aliases(q.with@)) && select_ok(
                    final(self).scopes@,
                    old(self).visible_scopes@.push(n as usize),
                    *s,
                ) && exprs_plain(q.order_by@) && exprs_lookups_found(
                    final(self).scopes@,
                    old(self).visible_scopes@.push(n as usize),
                    q.order_by@,
                ) ==> r is Ok))
                &&& (*old(statement) matches Statement::Query(q) ==> *q.body matches SetExpr::Select(s) ==> (
                r matches Err(err) && !ctes_can_fail(q.with@, err) && !from_can_fail(s.from@, err)
                    ==> sources_for(
                    final(self).scopes@,
                    old(self).visible_scopes@.push(n as usize),
                    final(self).scopes@[n].sources.entries@,
                    from_factors(s.from@),
                )))
                &&& (*old(statement) matches Statement::Query(q) ==> *q.body matches SetExpr::Select(s) ==> (
                q.with@.len() == 0 && from_cte_tables(old(self).scopes@, old(self).visible_scopes@, s.from@)
                    && select_ok(final(self).scopes@, old(self).visible_scopes@.push(n as usize), *s)
                    && exprs_plain(q.order_by@) && exprs_lookups_found(
                    final(self).scopes@,
                    old(self).visible_scopes@.push(n as usize),
                    q.order_by@,
                ) ==> r is Ok))
            }),
            *old(statement) matches Statement::Query(q) ==> (query_tables_among(*q, Seq::empty())
                ==> !(r matches Err(ResolutionError::TableNotFound(_)))),
    {
        match statement {
            Statement::Query(query) => {
                let ghost n = self.scopes@.len() as int;
                let r = self.resolve_query(&**query, ScopeType::Root, false);
                proof {
                    assert(names_bound(old(self).scopes@, old(self).visible_scopes@, Seq::<Seq<char>>::empty()));
                }
                let nq = r?;
                assert(query_resolution(self.scopes@, old(self).visible_scopes@.push(n as usize), n, **query, nq));
            },
            Statement::Other(_) => {
                proof {
                    lemma_continues_refl(self);
                }
                let name = String::from_str("sqlparser::ast::Statement");
                return Err(ResolutionError::UnsupportedQueryType(name));
            },
        }
        Ok(())
    }

    /// Leaves the active scope for its parent; answers the scope that was left.
    pub fn exit_scope(&mut self) -> (left: ScopeId)
        requires
            old(self).active_scope < old(self).scopes@.len(),
        ensures
            old(self).wf() && old(self).visible_scopes@.len() > 1 ==> final(self).wf(),
            left == old(self).active_scope,
            final(self).active_scope == old(self).scopes@[left as int].parent,
            old(self).visible_scopes@.len() > 0 ==> final(self).visible_scopes@ == old(
                self,
            ).visible_scopes@.drop_last(),
            old(self).visible_scopes@.len() == 0 ==> final(self).visible_scopes@.len() == 0,
            final(self).scopes == old(self).scopes,
            final(self).accumulator_stack == old(self).accumulator_stack,
            final(self).resolver == old(self).resolver,
    {
        let old_scope = self.active_scope;
        self.active_scope = self.scopes[old_scope].parent;
        self.visible_scopes.pop();
        proof {
            if old(self).wf() && old(self).visible_scopes@.len() > 1 {
                let v = old(self).visible_scopes@;
                assert(self.visible_scopes@ =~= v.drop_last());
                assert(v[v.len() - 1] > 0 && self.scopes@[v[v.len() - 1] as int].parent == v[v.len() - 2]);
            }
        }
        old_scope
    }
}

/// Adding to the frames in two steps adds the union of both additions.
pub proof fn lemma_frames_gained_trans(
    a: Seq<ColumnSet>,
    b: Seq<ColumnSet>,
    c: Seq<ColumnSet>,
    s: Set<ColumnKey>,
    t: Set<ColumnKey>,
)
    requires
        frames_gained(a, b, s),
        frames_gained(b, c, t),
    ensures
        frames_gained(a, c, s.union(t)),
{
    assert forall|f: int| 0 <= f < a.len() implies #[trigger] c[f]@ == a[f]@.union(s.union(t)) by {
        assert(c[f]@ =~= a[f]@.union(s.union(t)));
    }
}

/// Adding nothing leaves every frame as it was.
pub proof fn lemma_frames_gained_nothing(a: Seq<ColumnSet>)
    ensures
        frames_gained(a, a, Set::empty()),
{
    assert forall|f: int| 0 <= f < a.len() implies #[trigger] a[f]@ == a[f]@.union(Set::<ColumnKey>::empty()) by {
        assert(a[f]@ =~= a[f]@.union(Set::<ColumnKey>::empty()));
    }
}

/// Growing twice is growing.
pub proof fn lemma_frames_grown_trans(a: Seq<ColumnSet>, b: Seq<ColumnSet>, c: Seq<ColumnSet>)
    requires
        frames_grown(a, b),
        frames_grown(b, c),
    ensures
        frames_grown(a, c),
{
    assert forall|f: int| 0 <= f < a.len() implies (#[trigger] a[f]@).subset_of(c[f]@) by {
        assert(a[f]@.subset_of(b[f]@));
        assert(b[f]@.subset_of(c[f]@));
    }
}

/// A scope's role-tagged column sets: join, filter, group-by, sort.
pub type RoleSets = (Set<ColumnKey>, Set<ColumnKey>, Set<ColumnKey>, Set<ColumnKey>);

/// The role-tagged column sets of a scope.
pub open spec fn role_sets(s: ResolvedScope) -> RoleSets {
    (s.join_columns@, s.filter_columns@, s.group_by_columns@, s.sort_columns@)
}

/// `t` with `cols` added to the set of `role`.
pub open spec fn add_to_role(t: RoleSets, role: ColumnRole, cols: Set<ColumnKey>) -> RoleSets {
    match role {
        ColumnRole::Join => (t.0.union(cols), t.1, t.2, t.3),
        ColumnRole::Filter => (t.0, t.1.union(cols), t.2, t.3),
        ColumnRole::GroupBy => (t.0, t.1, t.2.union(cols), t.3),
        ColumnRole::Sort => (t.0, t.1, t.2, t.3.union(cols)),
    }
}

/// The role in which a scope uses a column.
#[derive(Debug, Clone, Copy, PartialEq, Eq, Structural)]
pub enum ColumnRole {
    Join,
    Filter,
    GroupBy,
    Sort,
}

/// Changing only the content of the active scope keeps the arena a tree and
/// the context positioned where it was.
#[verifier::spinoff_prover]
pub proof fn lemma_content_change_keeps_wf<'r, T: SchemaProvider>(
    old: &ResolutionContext<'r, T>,
    new: &ResolutionContext<'r, T>,
)
    requires
        old.wf(),
        new.only_active_content_changed(old),
    ensures
        new.wf(),
        new.continues_within(old),
{
    let a = old.active_scope as int;
    assert forall|i: int| 0 <= i < old.scopes@.len() implies #[trigger] new.scopes@[i].id
        == old.scopes@[i].id && new.scopes@[i].parent == old.scopes@[i].parent
        && new.scopes@[i].children == old.scopes@[i].children by {
        if i != a {
            assert(new.scopes@[i] == old.scopes@[i]);
        }
    }
    let ns = new.scopes@;
    let os = old.scopes@;
    assert forall|i: int, k: int|
        0 <= i < ns.len() && 0 <= k < ns[i].children@.len() implies is_child_of(
        ns,
        i,
        #[trigger] ns[i].children@[k],
    ) by {
        assert(ns[i].children == os[i].children);
        assert(is_child_of(os, i, os[i].children@[k]));
        let c = os[i].children@[k] as int;
        assert(ns[c].parent == os[c].parent);
    }
    assert forall|j: int|
        0 < j < ns.len() implies #[trigger] ns[ns[j].parent as int].children@.contains(j as usize) by {
        assert(ns[j].parent == os[j].parent);
        assert(os[os[j].parent as int].children@.contains(j as usize));
        assert(ns[os[j].parent as int].children == os[os[j].parent as int].children);
    }
    assert forall|i: int, k1: int, k2: int|
        0 <= i < ns.len() && 0 <= k1 < k2 < ns[i].children@.len()
            implies #[trigger] ns[i].children@[k1] < #[trigger] ns[i].children@[k2] by {
        assert(ns[i].children == os[i].children);
        assert(os[i].children@[k1] < os[i].children@[k2]);
    }
    assert(ns[0].parent == os[0].parent);
    assert(arena_wf(ns));
    assert forall|i: int|
        0 <= i < old.scopes@.len() && i != old.active_scope implies same_but_children(
        #[trigger] old.scopes@[i],
        new.scopes@[i],
    ) by {
        assert(new.scopes@[i] == old.scopes@[i]);
    }
    lemma_frames_gained_nothing(old.accumulator_stack@);
}

/// Continuing inside the active scope keeps all that lookups read but the
/// active scope's sources.
pub proof fn lemma_lookups_kept_except_within<'r, T: SchemaProvider>(
    a: &ResolutionContext<'r, T>,
    b: &ResolutionContext<'r, T>,
)
    requires
        b.continues_within(a),
        a.active_scope < a.scopes@.len(),
        b.keeps_ctes(a),
    ensures
        lookups_kept_except(a.scopes@, b.scopes@, a.active_scope as int),
{
    assert forall|i: int| 0 <= i < a.scopes@.len() implies (#[trigger] b.scopes@[i]).allow_lateral
        == a.scopes@[i].allow_lateral && b.scopes@[i].parent == a.scopes@[i].parent
        && b.scopes@[i].scope_type == a.scopes@[i].scope_type && b.scopes@[i].ctes == a.scopes@[i].ctes && (i
        != a.active_scope ==> b.scopes@[i].sources == a.scopes@[i].sources) by {
        if i != a.active_scope {
            assert(same_but_children(a.scopes@[i], b.scopes@[i]));
        }
    }
}

/// Continuing inside the active scope, with its sources kept and CTE
/// bindings only added after the ones it held, keeps what lookups read but
/// for those bindings.
pub proof fn lemma_bindings_grown_within<'r, T: SchemaProvider>(
    a: &ResolutionContext<'r, T>,
    b: &ResolutionContext<'r, T>,
)
    requires
        b.continues_within(a),
        a.active_scope < a.scopes@.len(),
        b.keeps_sources(a),
        a.scopes@[a.active_scope as int].ctes@.len() <= b.scopes@[a.active_scope as int].ctes@.len(),
        b.scopes@[a.active_scope as int].ctes@.take(a.scopes@[a.active_scope as int].ctes@.len() as int)
            == a.scopes@[a.active_scope as int].ctes@,
    ensures
        bindings_grown_except(a.scopes@, b.scopes@, a.active_scope as int),
{
    assert forall|i: int| 0 <= i < a.scopes@.len() implies (#[trigger] b.scopes@[i]).allow_lateral
        == a.scopes@[i].allow_lateral && b.scopes@[i].parent == a.scopes@[i].parent
        && b.scopes@[i].scope_type == a.scopes@[i].scope_type && (i != a.active_scope ==> b.scopes@[i].sources
        == a.scopes@[i].sources && b.scopes@[i].ctes == a.scopes@[i].ctes) by {
        if i != a.active_scope {
            assert(same_but_children(a.scopes@[i], b.scopes@[i]));
        }
    }
}

/// Continuing inside the active scope, with the active scope's sources kept,
/// keeps all that lookups read.
pub proof fn lemma_lookups_kept_within<'r, T: SchemaProvider>(
    a: &ResolutionContext<'r, T>,
    b: &ResolutionContext<'r, T>,
)
    requires
        b.continues_within(a),
        a.active_scope < a.scopes@.len(),
        b.scopes@[a.active_scope as int].sources == a.scopes@[a.active_scope as int].sources,
        b.keeps_ctes(a),
    ensures
        lookups_kept(a.scopes@, b.scopes@),
{
    assert forall|i: int| 0 <= i < a.scopes@.len() implies (#[trigger] b.scopes@[i]).sources
        == a.scopes@[i].sources && b.scopes@[i].ctes == a.scopes@[i].ctes && b.scopes@[i].allow_lateral
        == a.scopes@[i].allow_lateral
        && b.scopes@[i].parent == a.scopes@[i].parent && b.scopes@[i].scope_type
        == a.scopes@[i].scope_type by {
        if i != a.active_scope {
            assert(same_but_children(a.scopes@[i], b.scopes@[i]));
        }
    }
}

/// Continuing is transitive.
pub proof fn lemma_continues_trans<'r, T: SchemaProvider>(
    a: &ResolutionContext<'r, T>,
    b: &ResolutionContext<'r, T>,
    c: &ResolutionContext<'r, T>,
)
    requires
        b.continues(a),
        c.continues(b),
    ensures
        c.continues(a),
{
    assert forall|i: int| 0 <= i < a.scopes@.len() implies same_but_children(
        #[trigger] a.scopes@[i],
        c.scopes@[i],
    ) by {
        assert(same_but_children(a.scopes@[i], b.scopes@[i]));
        assert(same_but_children(b.scopes@[i], c.scopes@[i]));
    }
    lemma_frames_grown_trans(a.accumulator_stack@, b.accumulator_stack@, c.accumulator_stack@);
    assert forall|i: int| a.scopes@.len() <= i < c.scopes@.len() implies (#[trigger] c.scopes@[i]).scope_type
        != ScopeType::Root by {
        if i < b.scopes@.len() {
            assert(same_but_children(b.scopes@[i], c.scopes@[i]));
        }
    }
}

/// Continuing inside the active scope is transitive.
pub proof fn lemma_within_trans<'r, T: SchemaProvider>(
    a: &ResolutionContext<'r, T>,
    b: &ResolutionContext<'r, T>,
    c: &ResolutionContext<'r, T>,
)
    requires
        b.continues_within(a),
        c.continues_within(b),
    ensures
        c.continues_within(a),
{
    assert forall|i: int| 0 <= i < a.scopes@.len() && i != a.active_scope implies same_but_children(
        #[trigger] a.scopes@[i],
        c.scopes@[i],
    ) by {
        assert(same_but_children(a.scopes@[i], b.scopes@[i]));
        assert(same_but_children(b.scopes@[i], c.scopes@[i]));
    }
    lemma_frames_grown_trans(a.accumulator_stack@, b.accumulator_stack@, c.accumulator_stack@);
    assert forall|i: int| a.scopes@.len() <= i < c.scopes@.len() implies (#[trigger] c.scopes@[i]).scope_type
        != ScopeType::Root by {
        if i < b.scopes@.len() && i != b.active_scope {
            assert(same_but_children(b.scopes@[i], c.scopes@[i]));
        }
    }
}

/// Continuing is continuing inside the active scope.
pub proof fn lemma_continues_within<'r, T: SchemaProvider>(
    a: &ResolutionContext<'r, T>,
    b: &ResolutionContext<'r, T>,
)
    requires
        b.continues(a),
        a.active_scope < a.scopes@.len(),
    ensures
        b.continues_within(a),
{
    assert(same_but_children(a.scopes@[a.active_scope as int], b.scopes@[a.active_scope as int]));
}

/// A context continues itself.
pub proof fn lemma_continues_refl<'r, T: SchemaProvider>(a: &ResolutionContext<'r, T>)
    ensures
        a.continues(a),
{
    assert forall|f: int| 0 <= f < a.accumulator_stack@.len() implies (#[trigger] a.accumulator_stack@[f]@).subset_of(
        a.accumulator_stack@[f]@,
    ) by {}
}

/// Opening a scope, working inside it, and leaving it again continues the
/// context from before the scope was opened.
pub proof fn lemma_branch_within_exit<'r, T: SchemaProvider>(
    a: &ResolutionContext<'r, T>,
    b: &ResolutionContext<'r, T>,
    c: &ResolutionContext<'r, T>,
    d: &ResolutionContext<'r, T>,
)
    requires
        a.wf(),
        b.resolver == a.resolver,
        b.scopes@.len() == a.scopes@.len() + 1,
        b.active_scope == a.scopes@.len(),
        b.visible_scopes@ == a.visible_scopes@.push(a.scopes@.len() as usize),
        b.accumulator_stack == a.accumulator_stack,
        bindings_kept(a.scopes@, b.scopes@),
        b.scopes@[a.scopes@.len() as int].parent == a.active_scope,
        c.continues_within(b),
        d.active_scope == c.scopes@[c.active_scope as int].parent,
        d.visible_scopes@ == c.visible_scopes@.drop_last(),
        d.scopes == c.scopes,
        d.accumulator_stack == c.accumulator_stack,
        d.resolver == c.resolver,
    ensures
        d.continues_base(a),
        no_roots_from(d.scopes@, a.scopes@.len() + 1int),
        d.scopes@[a.scopes@.len() as int].scope_type == b.scopes@[a.scopes@.len() as int].scope_type,
        b.scopes@[a.scopes@.len() as int].scope_type != ScopeType::Root ==> d.continues(a),
{
    assert(d.visible_scopes@ =~= a.visible_scopes@);
    assert forall|i: int| 0 <= i < a.scopes@.len() implies same_but_children(
        #[trigger] a.scopes@[i],
        d.scopes@[i],
    ) by {
        assert(same_but_children(a.scopes@[i], b.scopes@[i]));
        assert(same_but_children(b.scopes@[i], c.scopes@[i]));
    }
}

/// Tagging with the same role twice tags with the union.
pub proof fn lemma_add_to_role_twice(t: RoleSets, role: ColumnRole, a: Set<ColumnKey>, b: Set<ColumnKey>)
    ensures
        add_to_role(add_to_role(t, role, a), role, b) == add_to_role(t, role, a.union(b)),
{
    assert(t.0.union(a).union(b) =~= t.0.union(a.union(b)));
    assert(t.1.union(a).union(b) =~= t.1.union(a.union(b)));
    assert(t.2.union(a).union(b) =~= t.2.union(a.union(b)));
    assert(t.3.union(a).union(b) =~= t.3.union(a.union(b)));
}

/// Tagging with nothing changes nothing.
pub proof fn lemma_add_to_role_nothing(t: RoleSets, role: ColumnRole)
    ensures
        add_to_role(t, role, Set::empty()) == t,
{
    assert(t.0.union(Set::empty()) =~= t.0);
    assert(t.1.union(Set::empty()) =~= t.1);
    assert(t.2.union(Set::empty()) =~= t.2);
    assert(t.3.union(Set::empty()) =~= t.3);
}

} // verus!
