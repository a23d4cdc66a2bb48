//! FROM clauses: table factors and joins.
use vstd::prelude::*;

use crate::ast::{Join, TableFactor, TableWithJoins};
use crate::resolve::select::{lemma_plain_opt_fails_by_lookup, opt_expr_plain};
use crate::resolve::column::{strings_view};
use crate::resolve::errors::ResolutionError;
use crate::resolve::rewrite::{
    factor_rewritten, from_rewritten, join_rewritten, joins_rewritten, lemma_from_rewritten_push,
    lemma_joins_rewritten_push, table_with_joins_rewritten,
};
use crate::resolve::failures::{
    factor_can_fail, from_can_fail, join_can_fail, joins_can_fail, lemma_from_can_fail_at,
    lemma_joins_can_fail_at, table_with_joins_can_fail,
};
use crate::resolve::query::{
    factor_tables_among, from_tables_among, joins_tables_among, lemma_chain_bindings_within, lemma_from_tables_among_at,
    lemma_joins_tables_among_at, lemma_names_bound_kept, names_bound, output_names_of, query_tables_among,
};
use crate::resolve::refs::{
    exprs_refs, factor_refs, from_refs, join_refs, joins_refs, lemma_from_refs_push, lemma_joins_refs_push,
    opt_expr_refs, table_with_joins_refs, barrier_above, factor_resolved, from_resolved, joins_resolved,
    lemma_bindings_kept_lookups, lemma_factor_resolved_stable_except, lemma_from_resolved_stable_except,
    lemma_joins_resolved_stable_except, lemma_lookups_kept_except_of, lemma_query_body_resolved_stable_except,
    opened_scope, parents_below, factor_fails_with, from_fails_with, exprs_plain, lemma_plain_list_fails_by_lookup, join_fails_with, joins_fails_with,
    lemma_from_fails_with_at, lemma_joins_fails_with_at, table_with_joins_fails_with, change_seen_as_growth,
    earlier_scope,
};
use crate::resolve::scope::sources::{
    CteSource, DerivedSource, FunctionSource, ResolvedSource, SourceEntry, TableSource,
};
use crate::resolve::scope::{ColumnKey, CteBinding, ResolvedScope, ScopeType};
use crate::resolve::{
    frames_gained, lemma_continues_refl, lemma_continues_within, lemma_frames_gained_nothing,
    lemma_frames_gained_trans, lemma_within_trans, add_to_role, lemma_add_to_role_nothing,
    lemma_add_to_role_twice, lemma_lookups_kept_except_within, role_sets, same_but_children, ColumnRole,
    ResolutionContext,
};
use crate::schema::{SchemaProvider, TableSchema};

verus! {

/// The index of the first CTE of `ctes` named `name`, if any.
#[verifier::opaque]
pub open spec fn first_cte(ctes: Seq<CteBinding>, name: Seq<char>) -> Option<int> {
    if exists|i: int| 0 <= i < ctes.len() && #[trigger] ctes[i].name@ == name {
        Some(
            choose|i: int|
                0 <= i < ctes.len() && #[trigger] ctes[i].name@ == name && forall|j: int|
                    0 <= j < i ==> ctes[j].name@ != name,
        )
    } else {
        None
    }
}

/// The CTE named `name` that is visible from `visible[k]`: the first one of
/// that name in the nearest scope, from `visible[k]` outward, that defines one.
pub open spec fn cte_lookup_from(
    scopes: Seq<ResolvedScope>,
    visible: Seq<usize>,
    k: int,
    name: Seq<char>,
) -> Option<CteBinding>
    decreases k + 1,
{
    if k < 0 {
        None
    } else {
        let ctes = scopes[visible[k] as int].ctes@;
        match first_cte(ctes, name) {
            Some(i) => Some(ctes[i]),
            None => cte_lookup_from(scopes, visible, k - 1, name),
        }
    }
}

/// The CTE named `name` visible from the active scope.
pub open spec fn cte_lookup(scopes: Seq<ResolvedScope>, visible: Seq<usize>, name: Seq<char>) -> Option<
    CteBinding,
> {
    cte_lookup_from(scopes, visible, visible.len() - 1, name)
}

/// The name under which a FROM-clause item is registered: its alias, else
/// the last part of a table's or function's name (empty for a derived
/// table); a pivot is registered under the name of the table it reshapes.
pub open spec fn factor_key(f: TableFactor) -> Seq<char>
    decreases f,
{
    match f {
        TableFactor::Table { name, alias } => match alias {
            Some(a) => a@,
            None => if name@.len() > 0 {
                name@.last()@
            } else {
                Seq::empty()
            },
        },
        TableFactor::Derived { lateral, subquery, alias } => match alias {
            Some(a) => a@,
            None => Seq::empty(),
        },
        TableFactor::Function { name, args, alias, columns } => match alias {
            Some(a) => a@,
            None => if name@.len() > 0 {
                name@.last()@
            } else {
                Seq::empty()
            },
        },
        TableFactor::Pivot { table, exprs } => factor_key(*table),
        TableFactor::Unsupported(_) => Seq::empty(),
    }
}

/// The names under which a list of joins registers its table factors.
pub open spec fn joins_keys(js: Seq<Join>) -> Seq<Seq<char>>
    decreases js.len(),
{
    if js.len() == 0 {
        Seq::empty()
    } else {
        joins_keys(js.drop_last()).push(factor_key(js.last().relation))
    }
}

/// The names under which a FROM list registers its table factors, each item
/// followed by its joins.
pub open spec fn from_keys(ts: Seq<TableWithJoins>) -> Seq<Seq<char>>
    decreases ts.len(),
{
    if ts.len() == 0 {
        Seq::empty()
    } else {
        from_keys(ts.drop_last()).push(factor_key(ts.last().relation)) + joins_keys(ts.last().joins@)
    }
}

/// The column references of the `ON` conditions of a list of joins.
pub open spec fn joins_on_refs(js: Seq<Join>) -> Set<ColumnKey>
    decreases js.len(),
{
    if js.len() == 0 {
        Set::empty()
    } else {
        joins_on_refs(js.drop_last()).union(opt_expr_refs(js.last().on))
    }
}

/// The column references of the `ON` conditions of a FROM list.
pub open spec fn from_on_refs(ts: Seq<TableWithJoins>) -> Set<ColumnKey>
    decreases ts.len(),
{
    if ts.len() == 0 {
        Set::empty()
    } else {
        from_on_refs(ts.drop_last()).union(joins_on_refs(ts.last().joins@))
    }
}

/// The names of a list of source entries.
pub open spec fn entry_names(entries: Seq<SourceEntry>) -> Seq<Seq<char>> {
    entries.map_values(|e: SourceEntry| e.name@)
}

/// A copy of a list of names.
pub fn copy_names(v: &Vec<String>) -> (r: Vec<String>)
    ensures
        strings_view(r@) == strings_view(v@),
{
    let mut r: Vec<String> = Vec::new();
    let mut i: usize = 0;
    while i < v.len()
        invariant
            0 <= i <= v.len(),
            r@.len() == i,
            forall|j: int| 0 <= j < i ==> #[trigger] r@[j]@ == v@[j]@,
        decreases v.len() - i,
    {
        r.push(v[i].clone());
        i = i + 1;
    }
    assert(strings_view(r@) =~= strings_view(v@));
    r
}

/// Source entry `e`, registered in scope `active` of `scopes`, is what
/// FROM item `f`, resolved in the scope that ends `visible`, resolves to:
/// for a one-part name that a CTE visible from there binds (`cte_lookup`),
/// that CTE, by its scope and output names; for any other name, the base
/// table of that name; a derived table resolved in its own child scope of
/// that scope, whose output names it exposes; a table function with its
/// name and alias columns; for a pivot, what the table it reshapes resolves
/// to.
pub open spec fn source_for(scopes: Seq<ResolvedScope>, visible: Seq<usize>, e: SourceEntry, f: TableFactor) -> bool
    decreases f,
{
    let active = visible.last() as int;
    match f {
        TableFactor::Table { name, .. } => if name@.len() == 1 && cte_lookup(scopes, visible, name@[0]@) is Some {
            let b = cte_lookup(scopes, visible, name@[0]@)->0;
            e.source matches ResolvedSource::Cte(c) && c.name@ == name@[0]@ && c.scope_id == b.scope_id
                && strings_view(c.columns@) == strings_view(b.columns@)
        } else {
            e.source matches ResolvedSource::Table(t) && strings_view(t.ident@) == strings_view(name@)
        },
        TableFactor::Derived { lateral, .. } => e.source matches ResolvedSource::Derived(d) && active
            < d.scope_id < scopes.len() && scopes[d.scope_id as int].parent == active
            && scopes[d.scope_id as int].scope_type == ScopeType::DerivedTable
            && scopes[d.scope_id as int].allow_lateral == lateral && strings_view(d.columns@)
            == output_names_of(scopes[d.scope_id as int]),
        TableFactor::Function { name, columns, .. } => e.source matches ResolvedSource::Function(fs)
            && strings_view(fs.name@) == strings_view(name@) && strings_view(fs.columns@)
            == strings_view(columns@),
        TableFactor::Pivot { table, .. } => source_for(scopes, visible, e, *table),
        TableFactor::Unsupported(_) => false,
    }
}

/// The FROM items of a list of joins, in order.
pub open spec fn joins_factors(js: Seq<Join>) -> Seq<TableFactor>
    decreases js.len(),
{
    if js.len() == 0 {
        Seq::empty()
    } else {
        joins_factors(js.drop_last()).push(js.last().relation)
    }
}

/// The FROM items of a FROM list, each item followed by its joins: the
/// order in which they are registered.
pub open spec fn from_factors(ts: Seq<TableWithJoins>) -> Seq<TableFactor>
    decreases ts.len(),
{
    if ts.len() == 0 {
        Seq::empty()
    } else {
        from_factors(ts.drop_last()).push(ts.last().relation) + joins_factors(ts.last().joins@)
    }
}

/// Each entry of `es` is what the FROM item at its position in `fs`
/// resolves to, as `source_for` says.
pub open spec fn sources_for(scopes: Seq<ResolvedScope>, visible: Seq<usize>, es: Seq<SourceEntry>, fs: Seq<TableFactor>) -> bool {
    &&& es.len() == fs.len()
    &&& forall|i: int| 0 <= i < es.len() ==> #[trigger] source_for(scopes, visible, es[i], fs[i])
}

/// Whether each join of `js` adds a named table, on a condition that holds
/// no nested query.
pub open spec fn joins_flat(js: Seq<Join>) -> bool {
    forall|j: int| 0 <= j < js.len() ==> (#[trigger] js[j]).relation is Table && opt_expr_plain(js[j].on)
}

/// Whether FROM list `ts` is made of named tables only, joined as
/// `joins_flat` says: a FROM list that opens no scope.
pub open spec fn from_flat(ts: Seq<TableWithJoins>) -> bool {
    forall|i: int| 0 <= i < ts.len() ==> (#[trigger] ts[i]).relation is Table && joins_flat(ts[i].joins@)
}

/// Whether FROM list `ts` is made of items without joins that each name,
/// by a one-part name, a CTE visible from the last scope of `visible`: a
/// FROM list whose resolution the arena alone decides to succeed.
pub open spec fn from_cte_tables(scopes: Seq<ResolvedScope>, visible: Seq<usize>, ts: Seq<TableWithJoins>) -> bool {
    forall|i: int|
        0 <= i < ts.len() ==> (#[trigger] ts[i]).joins@.len() == 0 && (ts[i].relation matches TableFactor::Table {
            name,
            ..
        } && name@.len() == 1 && cte_lookup(scopes, visible, name@[0]@) is Some)
}

/// A CTE lookup reads only the CTEs of the scopes it searches.
pub proof fn lemma_cte_lookup_from_stable(
    s1: Seq<ResolvedScope>,
    s2: Seq<ResolvedScope>,
    visible: Seq<usize>,
    k: int,
    name: Seq<char>,
)
    requires
        s1.len() <= s2.len(),
        forall|i: int| 0 <= i < s1.len() ==> (#[trigger] s2[i]).ctes == s1[i].ctes,
        k < visible.len(),
        forall|j: int| 0 <= j < visible.len() ==> #[trigger] visible[j] < s1.len(),
    ensures
        cte_lookup_from(s1, visible, k, name) == cte_lookup_from(s2, visible, k, name),
    decreases k + 1,
{
    if k >= 0 {
        assert(s2[visible[k] as int].ctes == s1[visible[k] as int].ctes);
        lemma_cte_lookup_from_stable(s1, s2, visible, k - 1, name);
    }
}

/// A list of no bindings binds no name.
pub proof fn lemma_first_cte_empty(cs: Seq<CteBinding>, t: Seq<char>)
    requires
        cs.len() == 0,
    ensures
        first_cte(cs, t) is None,
{
    reveal(first_cte);
}

/// Searching from position `k` of a chain reads nothing past position `k`.
pub proof fn lemma_cte_lookup_from_prefix(
    scopes: Seq<ResolvedScope>,
    visible: Seq<usize>,
    n: usize,
    k: int,
    name: Seq<char>,
)
    requires
        k < visible.len(),
    ensures
        cte_lookup_from(scopes, visible.push(n), k, name) == cte_lookup_from(scopes, visible, k, name),
    decreases k + 1,
{
    if k >= 0 {
        assert(visible.push(n)[k] == visible[k]);
        lemma_cte_lookup_from_prefix(scopes, visible, n, k - 1, name);
    }
}

/// A FROM list made of CTE names stays one when a scope that binds no CTE
/// is added to the end of the chain, and the scopes that were there keep
/// their CTEs.
pub proof fn lemma_from_cte_tables_child(
    s1: Seq<ResolvedScope>,
    s2: Seq<ResolvedScope>,
    visible: Seq<usize>,
    n: usize,
    ts: Seq<TableWithJoins>,
)
    requires
        s1.len() <= s2.len(),
        forall|i: int| 0 <= i < s1.len() ==> (#[trigger] s2[i]).ctes == s1[i].ctes,
        visible.len() > 0,
        forall|j: int| 0 <= j < visible.len() ==> #[trigger] visible[j] < s1.len(),
        n < s2.len(),
        s2[n as int].ctes@.len() == 0,
        from_cte_tables(s1, visible, ts),
    ensures
        from_cte_tables(s2, visible.push(n), ts),
{
    assert forall|i: int| 0 <= i < ts.len() implies (#[trigger] ts[i]).joins@.len() == 0 && (
    ts[i].relation matches TableFactor::Table { name, .. } && name@.len() == 1 && cte_lookup(
        s2,
        visible.push(n),
        name@[0]@,
    ) is Some) by {
        assert(ts[i].joins@.len() == 0);
        if let TableFactor::Table { name, .. } = ts[i].relation {
            let t = name@[0]@;
            let vp = visible.push(n);
            assert(vp[vp.len() - 1] == n);
            lemma_first_cte_empty(s2[n as int].ctes@, t);
            lemma_cte_lookup_from_prefix(s2, visible, n, visible.len() - 1, t);
            lemma_cte_lookup_from_stable(s1, s2, visible, visible.len() - 1, t);
            assert(cte_lookup(s1, visible, t) is Some);
        }
    }
}

/// `sources_for` of two lists holds of their concatenation.
pub proof fn lemma_sources_for_append(
    scopes: Seq<ResolvedScope>,
    visible: Seq<usize>,
    a: Seq<SourceEntry>,
    fa: Seq<TableFactor>,
    b: Seq<SourceEntry>,
    fb: Seq<TableFactor>,
)
    requires
        sources_for(scopes, visible, a, fa),
        sources_for(scopes, visible, b, fb),
    ensures
        sources_for(scopes, visible, a + b, fa + fb),
{
    assert forall|i: int| 0 <= i < (a + b).len() implies #[trigger] source_for(
        scopes,
        visible,
        (a + b)[i],
        (fa + fb)[i],
    ) by {
        if i < a.len() {
            assert(source_for(scopes, visible, a[i], fa[i]));
        } else {
            assert(source_for(scopes, visible, b[i - a.len()], fb[i - a.len()]));
        }
    }
}

/// What `source_for` says of an arena stays true while resolution goes on in
/// the same active scope.
pub proof fn lemma_source_for_stable<'r, T: SchemaProvider>(
    s1: &ResolutionContext<'r, T>,
    s2: &ResolutionContext<'r, T>,
    e: SourceEntry,
    f: TableFactor,
)
    requires
        s1.wf(),
        s2.continues_within(s1),
        s2.keeps_ctes(s1),
        source_for(s1.scopes@, s1.visible_scopes@, e, f),
    ensures
        source_for(s2.scopes@, s1.visible_scopes@, e, f),
    decreases f,
{
    match f {
        TableFactor::Table { name, .. } => {
            if name@.len() == 1 {
                lemma_ctes_kept_within(s1, s2);
                lemma_cte_lookup_from_stable(
                    s1.scopes@,
                    s2.scopes@,
                    s1.visible_scopes@,
                    s1.visible_scopes@.len() - 1,
                    name@[0]@,
                );
            }
        },
        TableFactor::Derived { .. } => {
            let d = e.source->Derived_0;
            assert(same_but_children(s1.scopes@[d.scope_id as int], s2.scopes@[d.scope_id as int]));
        },
        TableFactor::Pivot { table, .. } => {
            lemma_source_for_stable(s1, s2, e, *table);
        },
        _ => {},
    }
}

/// Continuing inside the active scope with its CTEs kept keeps every
/// scope's CTEs.
pub proof fn lemma_ctes_kept_within<'r, T: SchemaProvider>(
    s1: &ResolutionContext<'r, T>,
    s2: &ResolutionContext<'r, T>,
)
    requires
        s1.wf(),
        s2.continues_within(s1),
        s2.keeps_ctes(s1),
    ensures
        s1.scopes@.len() <= s2.scopes@.len(),
        forall|i: int| 0 <= i < s1.scopes@.len() ==> (#[trigger] s2.scopes@[i]).ctes == s1.scopes@[i].ctes,
{
    assert forall|i: int| 0 <= i < s1.scopes@.len() implies (#[trigger] s2.scopes@[i]).ctes
        == s1.scopes@[i].ctes by {
        if i != s1.active_scope {
            assert(same_but_children(s1.scopes@[i], s2.scopes@[i]));
        }
    }
}

/// `lemma_source_for_stable` for lists.
pub proof fn lemma_sources_for_stable<'r, T: SchemaProvider>(
    s1: &ResolutionContext<'r, T>,
    s2: &ResolutionContext<'r, T>,
    es: Seq<SourceEntry>,
    fs: Seq<TableFactor>,
)
    requires
        s1.wf(),
        s2.continues_within(s1),
        s2.keeps_ctes(s1),
        sources_for(s1.scopes@, s1.visible_scopes@, es, fs),
    ensures
        sources_for(s2.scopes@, s1.visible_scopes@, es, fs),
{
    assert forall|i: int| 0 <= i < es.len() implies #[trigger] source_for(
        s2.scopes@,
        s1.visible_scopes@,
        es[i],
        fs[i],
    ) by {
        lemma_source_for_stable(s1, s2, es[i], fs[i]);
    }
}

/// A copy of an optional alias.
pub fn copy_alias(a: &Option<String>) -> (r: Option<String>)
    ensures
        r == *a,
{
    match a {
        Some(x) => Some(x.clone()),
        None => None,
    }
}

/// A rewritten FROM item is registered under the name of the item it was
/// rewritten from.
pub proof fn lemma_factor_key_rewritten(o: TableFactor, n: TableFactor)
    requires
        factor_rewritten(o, n),
    ensures
        factor_key(n) == factor_key(o),
    decreases o,
{
    match o {
        TableFactor::Table { name, alias } => {
            if let TableFactor::Table { name: nn, .. } = n {
                let k = name@.len() - 1;
                assert(strings_view(nn@).len() == nn@.len());
                assert(strings_view(name@).len() == name@.len());
                if name@.len() > 0 {
                    assert(strings_view(name@)[k] == name@[k]@);
                    assert(strings_view(nn@)[k] == nn@[k]@);
                }
            }
        },
        TableFactor::Function { name, .. } => {
            if let TableFactor::Function { name: nn, .. } = n {
                let k = name@.len() - 1;
                assert(strings_view(nn@).len() == nn@.len());
                assert(strings_view(name@).len() == name@.len());
                if name@.len() > 0 {
                    assert(strings_view(name@)[k] == name@[k]@);
                    assert(strings_view(nn@)[k] == nn@[k]@);
                }
            }
        },
        TableFactor::Pivot { table, .. } => {
            if let TableFactor::Pivot { table: nt, .. } = n {
                lemma_factor_key_rewritten(*table, *nt);
            }
        },
        _ => {},
    }
}

/// The source for table `name` given what the schema provider answered for it.
pub fn table_source_from_schema(name: &Vec<String>, schema: Option<TableSchema>) -> (r: Result<
    ResolvedSource,
    ResolutionError,
>)
    ensures
        match schema {
            Some(s) => r matches Ok(ResolvedSource::Table(t)) && strings_view(t.ident@)
                == strings_view(name@) && t.columns == s.columns,
            None => r matches Err(ResolutionError::TableNotFound(n)) && strings_view(n@)
                == strings_view(name@),
        },
{
    match schema {
        Some(s) => Ok(ResolvedSource::Table(TableSource { ident: copy_names(name), columns: s.columns })),
        None => Err(ResolutionError::TableNotFound(copy_names(name))),
    }
}

/// The name under which a FROM-clause item is registered.
pub fn source_key(f: &TableFactor) -> (key: String)
    ensures
        key@ == factor_key(*f),
        *f matches TableFactor::Table { name, alias: None } ==> (name@.len() > 0 ==> key@ == name@[name@.len()
            - 1]@),
        *f matches TableFactor::Function { name, alias: None, .. } ==> (name@.len() > 0 ==> key@ == name@[name@.len()
            - 1]@),
        *f matches TableFactor::Table { alias: Some(a), .. } ==> key@ == a@,
        *f matches TableFactor::Function { alias: Some(a), .. } ==> key@ == a@,
        *f matches TableFactor::Derived { alias: Some(a), .. } ==> key@ == a@,
    decreases f,
{
    match f {
        TableFactor::Table { name, alias } => match alias {
            Some(a) => a.clone(),
            None => if name.len() > 0 {
                name[name.len() - 1].clone()
            } else {
                String::new()
            },
        },
        TableFactor::Derived { lateral, subquery, alias } => match alias {
            Some(a) => a.clone(),
            None => String::new(),
        },
        TableFactor::Function { name, args, alias, columns } => match alias {
            Some(a) => a.clone(),
            None => if name.len() > 0 {
                name[name.len() - 1].clone()
            } else {
                String::new()
            },
        },
        TableFactor::Pivot { table, exprs } => source_key(table),
        TableFactor::Unsupported(_) => String::new(),
    }
}

/// The index of the first CTE of `ctes` named `name`, if any.
pub fn first_cte_index(ctes: &Vec<CteBinding>, name: &String) -> (r: Option<usize>)
    ensures
        r matches Some(i) ==> first_cte(ctes@, name@) == Some(i as int),
        r is None ==> first_cte(ctes@, name@) is None,
        r matches Some(i) ==> i < ctes@.len() && ctes@[i as int].name@ == name@,
{
    let mut i: usize = 0;
    while i < ctes.len()
        invariant
            0 <= i <= ctes.len(),
            forall|j: int| 0 <= j < i ==> ctes@[j].name@ != name@,
        decreases ctes.len() - i,
    {
        if ctes[i].name == *name {
            proof {
                reveal(first_cte);
                assert(0 <= i < ctes@.len() && ctes@[i as int].name@ == name@ && forall|j: int|
                    0 <= j < i ==> ctes@[j].name@ != name@);
                let c = choose|c: int|
                    0 <= c < ctes@.len() && #[trigger] ctes@[c].name@ == name@ && forall|j: int|
                        0 <= j < c ==> ctes@[j].name@ != name@;
                if c < i {
                } else if c > i {
                    assert(ctes@[i as int].name@ != name@);
                }
                assert(c == i);
                assert(first_cte(ctes@, name@) == Some(i as int));
            }
            return Some(i);
        }
        i = i + 1;
    }
    proof {
        reveal(first_cte);
    }
    None
}

impl<'r, T: SchemaProvider> ResolutionContext<'r, T> {
    /// The scope and output names of the CTE named `name` visible from the
    /// active scope.
    pub fn find_cte(&self, name: &String) -> (r: Option<(usize, Vec<String>)>)
        requires
            self.wf(),
        ensures
            match cte_lookup(self.scopes@, self.visible_scopes@, name@) {
                Some(b) => r matches Some((id, cols)) && id == b.scope_id && strings_view(cols@)
                    == strings_view(b.columns@),
                None => r is None,
            },
    {
        let mut k: usize = self.visible_scopes.len();
        while k > 0
            invariant
                forall|j: int|
                    0 <= j < self.visible_scopes@.len() ==> #[trigger] self.visible_scopes@[j]
                        < self.scopes@.len(),
                0 <= k <= self.visible_scopes@.len(),
                cte_lookup(self.scopes@, self.visible_scopes@, name@) == cte_lookup_from(
                    self.scopes@,
                    self.visible_scopes@,
                    k - 1,
                    name@,
                ),
            decreases k,
        {
            k = k - 1;
            let ctes = &self.scopes[self.visible_scopes[k]].ctes;
            match first_cte_index(ctes, name) {
                Some(i) => {
                    proof {
                        assert(ctes@ == self.scopes@[self.visible_scopes@[k as int] as int].ctes@);
                        assert(first_cte(ctes@, name@) == Some(i as int));
                        assert(cte_lookup_from(self.scopes@, self.visible_scopes@, k as int, name@)
                            == Some(ctes@[i as int]));
                    }
                    return Some((ctes[i].scope_id, copy_names(&ctes[i].columns)));
                },
                None => {},
            }
        }
        None
    }

    /// The source that table name `name` stands for: a visible CTE for a
    /// one-part name that names one, else what the schema provider knows.
    pub fn lookup_table(&self, name: &Vec<String>) -> (r: Result<ResolvedSource, ResolutionError>)
        requires
            self.wf(),
        ensures
            name@.len() == 1 && cte_lookup(self.scopes@, self.visible_scopes@, name@[0]@) is Some
                ==> {
                let b = cte_lookup(self.scopes@, self.visible_scopes@, name@[0]@)->0;
                r matches Ok(ResolvedSource::Cte(c)) && c.name@ == name@[0]@ && c.scope_id
                    == b.scope_id && strings_view(c.columns@) == strings_view(b.columns@)
            },
            !(name@.len() == 1 && cte_lookup(self.scopes@, self.visible_scopes@, name@[0]@) is Some)
                ==> (r matches Ok(ResolvedSource::Table(t)) && strings_view(t.ident@)
                == strings_view(name@)) || (r matches Err(ResolutionError::TableNotFound(n))
                && strings_view(n@) == strings_view(name@)),
    {
        if name.len() == 1 {
            match self.find_cte(&name[0]) {
                Some((scope_id, columns)) => {
                    return Ok(ResolvedSource::Cte(CteSource { name: name[0].clone(), scope_id, columns }));
                },
                None => {},
            }
        }
        let schema = self.resolver.schema_provider.get_schema(name);
        table_source_from_schema(name, schema)
    }

    /// Resolves a FROM-clause item, registers it as a source of the active
    /// scope, and hands back its qualified form. A derived table's query is
    /// resolved in a scope of its own, which may see the active scope's
    /// earlier sources only when it is `LATERAL`. A table function's
    /// arguments are resolved in the active scope before the function is
    /// registered; a pivot registers the table it reshapes, then resolves its
    /// expressions against it.
    pub fn resolve_table_factor(&mut self, factor: &TableFactor) -> (r: Result<TableFactor, ResolutionError>)
        requires
            old(self).wf(),
        ensures
            r matches Ok(nf) ==> factor_rewritten(*factor, nf),
            r matches Err(err) ==> factor_can_fail(*factor, err),
            r matches Err(err) ==> factor_fails_with(final(self).scopes@, old(self).visible_scopes@, *factor, err),
            final(self).wf(),
            final(self).continues_within(old(self)),
            !(r matches Err(ResolutionError::UnsupportedQueryType(_))),
            (*factor is Unsupported) ==> (r matches Err(ResolutionError::UnsupportedTableFactor(_))),
            (*factor matches TableFactor::Table { name, .. } && name@.len() == 1 && cte_lookup(
                old(self).scopes@,
                old(self).visible_scopes@,
                name@[0]@,
            ) is Some) ==> r is Ok,
            *factor is Table ==> (r matches Err(err) ==> err is TableNotFound),
            forall|names: Seq<Seq<char>>|
                #![trigger factor_tables_among(*factor, names)]
                names_bound(old(self).scopes@, old(self).visible_scopes@, names) && factor_tables_among(*factor, names)
                    ==> !(r matches Err(ResolutionError::TableNotFound(_))),
            *factor is Table ==> final(self).scopes@.len() == old(self).scopes@.len(),
            r matches Ok(nf) ==> factor_key(nf) == factor_key(*factor),
            r matches Ok(nf) ==> factor_resolved(
                final(self).scopes@,
                old(self).visible_scopes@,
                old(self).scopes@[old(self).active_scope as int].sources.entries@.len() as int,
                *factor,
                nf,
            ),
            r is Ok ==> source_for(
                final(self).scopes@,
                old(self).visible_scopes@,
                final(self).scopes@[old(self).active_scope as int].sources.entries@.last(),
                *factor,
            ),
            final(self).keeps_ctes(old(self)),
            final(self).keeps_selected(old(self)),
            final(self).keeps_roles(old(self)),
            r matches Ok(nf) ==> frames_gained(
                old(self).accumulator_stack@,
                final(self).accumulator_stack@,
                factor_refs(nf),
            ),
            r is Ok ==> {
                let a = old(self).active_scope as int;
                let entries = final(self).scopes@[a].sources.entries@;
                &&& entries.len() == old(self).scopes@[a].sources.entries@.len() + 1
                &&& entries.drop_last() == old(self).scopes@[a].sources.entries@
                &&& entries.last().name@ == factor_key(*factor)
                &&& match *factor {
                    TableFactor::Derived { lateral, .. } => entries.last().source matches ResolvedSource::Derived(d)
                        && d.scope_id == old(self).scopes@.len() && strings_view(d.columns@)
                        == output_names_of(final(self).scopes@[d.scope_id as int])
                        && final(self).scopes@[d.scope_id as int].scope_type == ScopeType::DerivedTable
                        && final(self).scopes@[d.scope_id as int].allow_lateral == lateral
                        && final(self).scopes@[d.scope_id as int].parent == old(self).active_scope,
                    TableFactor::Table { .. } => entries.last().source is Table || entries.last().source is Cte,
                    TableFactor::Function { name, columns, .. } => entries.last().source matches ResolvedSource::Function(f)
                        && strings_view(f.name@) == strings_view(name@) && strings_view(f.columns@)
                        == strings_view(columns@),
                    _ => true,
                }
            },
        decreases factor, 0nat,
    {
        let ghost s0 = *self;
        let key = source_key(factor);
        match factor {
            TableFactor::Table { name, alias } => {
                let r = self.lookup_table(name);
                proof {
                    assert forall|names: Seq<Seq<char>>|
                        names_bound(s0.scopes@, s0.visible_scopes@, names) && #[trigger] factor_tables_among(
                            *factor,
                            names,
                        ) implies !(r matches Err(ResolutionError::TableNotFound(_))) by {
                        let i = choose|i: int| 0 <= i < names.len() && names[i] == name@[0]@;
                        assert(cte_lookup(s0.scopes@, s0.visible_scopes@, names[i]) is Some);
                    }
                }
                let source = r?;
                proof {
                    lemma_frames_gained_nothing(self.accumulator_stack@);
                }
                let ghost s1 = *self;
                self.add_source(key, source);
                let nf = TableFactor::Table { name: copy_names(name), alias: copy_alias(alias) };
                proof {
                    lemma_factor_key_rewritten(*factor, nf);
                    if name@.len() == 1 {
                        lemma_ctes_kept_within(&s1, self);
                        lemma_cte_lookup_from_stable(
                            s1.scopes@,
                            self.scopes@,
                            s1.visible_scopes@,
                            s1.visible_scopes@.len() - 1,
                            name@[0]@,
                        );
                    }
                }
                Ok(nf)
            },
            TableFactor::Derived { lateral, subquery, alias } => {
                let m = self.scopes.len();
                let r = self.resolve_query(&**subquery, ScopeType::DerivedTable, *lateral);
                proof {
                    lemma_continues_within(&s0, self);
                    assert(opened_scope(self.scopes@, s0.visible_scopes@, m, ScopeType::DerivedTable, *lateral));
                    assert forall|names: Seq<Seq<char>>|
                        names_bound(s0.scopes@, s0.visible_scopes@, names) && #[trigger] factor_tables_among(
                            *factor,
                            names,
                        ) implies !(r matches Err(ResolutionError::TableNotFound(_))) by {
                        assert(query_tables_among(**subquery, names));
                    }
                }
                let q = r?;
                let columns = self.output_names(m);
                let ghost s1 = *self;
                self.add_source(key, ResolvedSource::Derived(DerivedSource { scope_id: m, columns }));
                proof {
                    lemma_within_trans(&s0, &s1, self);
                }
                let nf = TableFactor::Derived { lateral: *lateral, subquery: Box::new(q), alias: copy_alias(alias) };
                proof {
                    lemma_factor_key_rewritten(*factor, nf);
                    let a = s0.active_scope as int;
                    if *lateral {
                        let l = s0.scopes@[a].sources.entries@.len() as int;
                        assert(same_but_children(s0.scopes@[a], s1.scopes@[a]));
                        assert(self.scopes@[a].sources.entries@.take(l) =~= s1.scopes@[a].sources.entries@);
                        assert(earlier_scope(self.scopes@[a], l, s1.scopes@[a]));
                        assert(self.scopes@.update(a, s1.scopes@[a]) =~= s1.scopes@);
                        assert(opened_scope(s1.scopes@, s0.visible_scopes@, m, ScopeType::DerivedTable, true));
                    }
                    if !*lateral {
                        let a = s0.active_scope as int;
                        let vd = s0.visible_scopes@.push(m);
                        assert forall|j: int| 0 <= j < vd.len() implies #[trigger] vd[j] < s1.scopes@.len() by {
                            if j < s0.visible_scopes@.len() {
                                assert(vd[j] == s0.visible_scopes@[j]);
                            }
                        }
                        assert(barrier_above(s1.scopes@, vd, a, s0.visible_scopes@.len() as int));
                        assert(parents_below(s1.scopes@));
                        lemma_lookups_kept_except_within(&s1, self);
                        lemma_query_body_resolved_stable_except(s1.scopes@, self.scopes@, vd, **subquery, q, a);
                        assert(opened_scope(self.scopes@, s0.visible_scopes@, m, ScopeType::DerivedTable, false));
                    }
                }
                Ok(nf)
            },
            TableFactor::Function { name, args, alias, columns } => {
                let r = self.qualify_exprs(args);
                proof {
                    lemma_continues_within(&s0, self);
                    if r is Err && exprs_plain(args@) {
                        lemma_plain_list_fails_by_lookup(self.scopes@, s0.visible_scopes@, args@, r->Err_0);
                    }
                }
                let qs = r?;
                let ghost s1 = *self;
                let source = ResolvedSource::Function(
                    FunctionSource { name: copy_names(name), columns: copy_names(columns) },
                );
                self.add_source(key, source);
                proof {
                    lemma_within_trans(&s0, &s1, self);
                }
                let nf = TableFactor::Function {
                    name: copy_names(name),
                    args: qs,
                    alias: copy_alias(alias),
                    columns: copy_names(columns),
                };
                proof {
                    lemma_factor_key_rewritten(*factor, nf);
                    let a = s0.active_scope as int;
                    let l = s0.scopes@[a].sources.entries@.len() as int;
                    assert(same_but_children(s0.scopes@[a], s1.scopes@[a]));
                    assert(self.scopes@[a].sources.entries@.take(l) =~= s1.scopes@[a].sources.entries@);
                    assert(earlier_scope(self.scopes@[a], l, s1.scopes@[a]));
                    assert(self.scopes@.update(a, s1.scopes@[a]) =~= s1.scopes@);
                }
                Ok(nf)
            },
            TableFactor::Pivot { table, exprs } => {
                let r0 = self.resolve_table_factor(&**table);
                proof {
                    assert forall|names: Seq<Seq<char>>|
                        names_bound(s0.scopes@, s0.visible_scopes@, names) && #[trigger] factor_tables_among(
                            *factor,
                            names,
                        ) implies !(r0 matches Err(ResolutionError::TableNotFound(_))) by {
                        assert(factor_tables_among(**table, names));
                    }
                }
                let nt = r0?;
                let ghost s1 = *self;
                let r = self.qualify_exprs(exprs);
                proof {
                    lemma_continues_within(&s1, self);
                    lemma_within_trans(&s0, &s1, self);
                    if r is Err && exprs_plain(exprs@) {
                        lemma_plain_list_fails_by_lookup(self.scopes@, s0.visible_scopes@, exprs@, r->Err_0);
                    }
                }
                let qs = r?;
                proof {
                    lemma_frames_gained_trans(
                        s0.accumulator_stack@,
                        s1.accumulator_stack@,
                        self.accumulator_stack@,
                        factor_refs(nt),
                        exprs_refs(qs@),
                    );
                    let a = s0.active_scope as int;
                    assert(same_but_children(s1.scopes@[a], self.scopes@[a]));
                    lemma_source_for_stable(&s1, self, s1.scopes@[a].sources.entries@.last(), **table);
                    lemma_bindings_kept_lookups(s1.scopes@, self.scopes@);
                    lemma_lookups_kept_except_of(s1.scopes@, self.scopes@);
                    let l = s0.scopes@[a].sources.entries@.len() as int;
                    lemma_factor_resolved_stable_except(s1.scopes@, self.scopes@, s0.visible_scopes@, l, **table, nt, -1);
                    assert(self.scopes@[a].sources.entries@.take(l + 1) =~= self.scopes@[a].sources.entries@);
                    assert(earlier_scope(self.scopes@[a], l + 1, self.scopes@[a]));
                    assert(self.scopes@.update(a, self.scopes@[a]) =~= self.scopes@);
                }
                let nf = TableFactor::Pivot { table: Box::new(nt), exprs: qs };
                proof {
                    lemma_factor_key_rewritten(*factor, nf);
                }
                Ok(nf)
            },
            TableFactor::Unsupported(kind) => {
                proof {
                    lemma_continues_refl(self);
                    lemma_continues_within(&s0, self);
                }
                Err(ResolutionError::UnsupportedTableFactor(kind.clone()))
            },
        }
    }

    /// Resolves the joins of a FROM item in order: each join's table factor,
    /// then its `ON` condition, whose columns are tagged as join columns;
    /// hands back the joins' qualified form.
    #[verifier::spinoff_prover]
    #[verifier::rlimit(60)]
    pub fn resolve_joins(&mut self, joins: &Vec<Join>) -> (r: Result<Vec<Join>, ResolutionError>)
        requires
            old(self).wf(),
        ensures
            r matches Ok(nj) ==> joins_rewritten(joins@, nj@),
            r matches Err(err) ==> joins_can_fail(joins@, err),
            r matches Err(err) ==> joins_fails_with(final(self).scopes@, old(self).visible_scopes@, joins@, err),
            final(self).wf(),
            final(self).continues_within(old(self)),
            !(r matches Err(ResolutionError::UnsupportedQueryType(_))),
            final(self).keeps_ctes(old(self)),
            final(self).keeps_selected(old(self)),
            r matches Ok(nj) ==> entry_names(final(self).old_active(old(self)).sources.entries@) == entry_names(
                old(self).scopes@[old(self).active_scope as int].sources.entries@,
            ) + joins_keys(nj@),
            r matches Ok(nj) ==> role_sets(final(self).old_active(old(self))) == add_to_role(
                role_sets(old(self).scopes@[old(self).active_scope as int]),
                ColumnRole::Join,
                joins_on_refs(nj@),
            ),
            r matches Ok(nj) ==> frames_gained(
                old(self).accumulator_stack@,
                final(self).accumulator_stack@,
                joins_refs(nj@),
            ),
            r is Ok ==> sources_for(
                final(self).scopes@,
                old(self).visible_scopes@,
                final(self).old_active(old(self)).sources.entries@.skip(
                    old(self).scopes@[old(self).active_scope as int].sources.entries@.len() as int,
                ),
                joins_factors(joins@),
            ),
            joins@.len() == 0 ==> r is Ok,
            joins_flat(joins@) ==> final(self).scopes@.len() == old(self).scopes@.len(),
            r matches Ok(nj) ==> joins_resolved(
                final(self).scopes@,
                old(self).visible_scopes@,
                old(self).scopes@[old(self).active_scope as int].sources.entries@.len() as int,
                joins@,
                nj@,
            ),
            r is Ok ==> final(self).old_active(old(self)).sources.entries@.len() >= old(self).scopes@[old(
                self,
            ).active_scope as int].sources.entries@.len(),
            r is Ok ==> final(self).old_active(old(self)).sources.entries@.take(
                old(self).scopes@[old(self).active_scope as int].sources.entries@.len() as int,
            ) == old(self).scopes@[old(self).active_scope as int].sources.entries@,
            forall|names: Seq<Seq<char>>|
                #![trigger joins_tables_among(joins@, names)]
                names_bound(old(self).scopes@, old(self).visible_scopes@, names) && joins_tables_among(joins@, names)
                    ==> !(r matches Err(ResolutionError::TableNotFound(_))),
        decreases joins, 0nat,
    {
        let ghost s0 = *self;
        let ghost j0 = joins@;
        let n = joins.len();
        let mut out: Vec<Join> = Vec::new();
        proof {
            lemma_continues_refl(self);
            lemma_continues_within(&s0, self);
            lemma_frames_gained_nothing(self.accumulator_stack@);
            assert(out@ =~= Seq::<Join>::empty());
            assert(j0.take(0) =~= Seq::<Join>::empty());
            assert(self.scopes@[self.active_scope as int].sources.entries@.skip(
                self.scopes@[self.active_scope as int].sources.entries@.len() as int,
            ) =~= Seq::<SourceEntry>::empty());
            assert(self.scopes@[self.active_scope as int].sources.entries@.take(
                self.scopes@[self.active_scope as int].sources.entries@.len() as int,
            ) =~= self.scopes@[self.active_scope as int].sources.entries@);
            lemma_add_to_role_nothing(role_sets(self.scopes@[self.active_scope as int]), ColumnRole::Join);
            assert(entry_names(self.scopes@[self.active_scope as int].sources.entries@) =~= entry_names(
                self.scopes@[self.active_scope as int].sources.entries@,
            ) + joins_keys(out@));
        }
        let mut i: usize = 0;
        while i < n
            invariant
                0 <= i <= n,
                n == j0.len(),
                j0 == joins@,
                s0 == *old(self),
                s0.wf(),
                out@.len() == i,
                self.wf(),
                self.continues_within(&s0),
                joins_flat(j0) ==> self.scopes@.len() == s0.scopes@.len(),
                joins_resolved(
                    self.scopes@,
                    s0.visible_scopes@,
                    s0.scopes@[s0.active_scope as int].sources.entries@.len() as int,
                    j0.take(i as int),
                    out@,
                ),
                self.old_active(&s0).sources.entries@.len() == s0.scopes@[s0.active_scope as int].sources.entries@.len()
                    + i,
                joins_rewritten(j0.take(i as int), out@),
                frames_gained(s0.accumulator_stack@, self.accumulator_stack@, joins_refs(out@)),
                self.keeps_ctes(&s0),
                self.keeps_selected(&s0),
                entry_names(self.old_active(&s0).sources.entries@) == entry_names(
                    s0.scopes@[s0.active_scope as int].sources.entries@,
                ) + joins_keys(out@),
                role_sets(self.old_active(&s0)) == add_to_role(
                    role_sets(s0.scopes@[s0.active_scope as int]),
                    ColumnRole::Join,
                    joins_on_refs(out@),
                ),
                sources_for(
                    self.scopes@,
                    s0.visible_scopes@,
                    self.old_active(&s0).sources.entries@.skip(
                        s0.scopes@[s0.active_scope as int].sources.entries@.len() as int,
                    ),
                    joins_factors(j0.take(i as int)),
                ),
                self.old_active(&s0).sources.entries@.len() >= s0.scopes@[s0.active_scope as int].sources.entries@.len(),
                self.old_active(&s0).sources.entries@.take(
                    s0.scopes@[s0.active_scope as int].sources.entries@.len() as int,
                ) == s0.scopes@[s0.active_scope as int].sources.entries@,
            decreases n - i,
        {
            let ghost s1 = *self;
            let ghost before = out@;
            proof {
                assert(decreases_to!(*joins => joins@[i as int].relation)) by {
                    assert(decreases_to!(*joins => joins@[i as int]));
                }
            }
            proof {
                if joins_flat(j0) {
                    assert(j0[i as int].relation is Table && opt_expr_plain(j0[i as int].on));
                }
            }
            let r = self.resolve_table_factor(&joins[i].relation);
            proof {
                lemma_within_trans(&s0, &s1, self);
                let a = s0.active_scope as int;
                assert(s1.scopes@[a].ctes@.take(s0.scopes@[a].ctes@.len() as int) =~= s0.scopes@[a].ctes@);
                lemma_chain_bindings_within(&s0, &s1);
                assert forall|names: Seq<Seq<char>>|
                    names_bound(s0.scopes@, s0.visible_scopes@, names) && #[trigger] joins_tables_among(j0, names)
                        implies !(r matches Err(ResolutionError::TableNotFound(_))) by {
                    lemma_joins_tables_among_at(j0, names, i as int);
                    lemma_names_bound_kept(s0.scopes@, s1.scopes@, s0.visible_scopes@, names);
                }
                if r is Err {
                    assert(join_can_fail(j0[i as int], r->Err_0));
                    lemma_joins_can_fail_at(j0, i as int, r->Err_0);
                    assert(join_fails_with(self.scopes@, s0.visible_scopes@, j0[i as int], r->Err_0));
                    lemma_joins_fails_with_at(self.scopes@, s0.visible_scopes@, j0, i as int, r->Err_0);
                }
            }
            let relation = r?;
            let ghost s2 = *self;
            proof {
                assert(decreases_to!(*joins => joins@[i as int].on)) by {
                    assert(decreases_to!(*joins => joins@[i as int]));
                }
            }
            let r = self.resolve_optional_tagged(&joins[i].on, ColumnRole::Join);
            proof {
                lemma_within_trans(&s0, &s2, self);
                assert forall|names: Seq<Seq<char>>|
                    names_bound(s0.scopes@, s0.visible_scopes@, names) && #[trigger] joins_tables_among(j0, names)
                        implies !(r matches Err(ResolutionError::TableNotFound(_))) by {
                    lemma_joins_tables_among_at(j0, names, i as int);
                    if r is Err {
                        lemma_plain_opt_fails_by_lookup(self.scopes@, s0.visible_scopes@, j0[i as int].on, r->Err_0);
                    }
                }
                if r is Err {
                    assert(join_can_fail(j0[i as int], r->Err_0));
                    lemma_joins_can_fail_at(j0, i as int, r->Err_0);
                    assert(join_fails_with(self.scopes@, s0.visible_scopes@, j0[i as int], r->Err_0));
                    lemma_joins_fails_with_at(self.scopes@, s0.visible_scopes@, j0, i as int, r->Err_0);
                }
            }
            let on = r?;
            out.push(Join { relation, on });
            proof {
                assert(out@.take(i as int) =~= before);
                assert(out@.take(i + 1) =~= out@);
                assert(out@.drop_last() =~= before);
                let a = s0.active_scope as int;
                assert(entry_names(s2.scopes@[a].sources.entries@) =~= entry_names(
                    s1.scopes@[a].sources.entries@,
                ).push(factor_key(out@[i as int].relation)));
                assert(entry_names(self.scopes@[a].sources.entries@) =~= entry_names(
                    s0.scopes@[a].sources.entries@,
                ) + joins_keys(out@));
                lemma_add_to_role_twice(
                    role_sets(s0.scopes@[a]),
                    ColumnRole::Join,
                    joins_on_refs(before),
                    opt_expr_refs(out@[i as int].on),
                );
                lemma_joins_refs_push(out@, i as int);
                lemma_joins_rewritten_push(j0, out@, i as int);
                lemma_within_trans(&s1, &s2, self);
                assert(parents_below(s1.scopes@));
                assert(parents_below(s2.scopes@));
                lemma_lookups_kept_except_within(&s1, self);
                lemma_lookups_kept_except_within(&s2, self);
                let l0 = s0.scopes@[a].sources.entries@.len() as int;
                let l1 = s1.scopes@[a].sources.entries@.len() as int;
                assert(self.scopes@[a].sources.entries@.take(l1) =~= s1.scopes@[a].sources.entries@);
                assert(self.scopes@[a].sources.entries@.take(l1 + 1) =~= s2.scopes@[a].sources.entries@);
                assert(change_seen_as_growth(s1.scopes@, self.scopes@, s0.visible_scopes@, a));
                assert(change_seen_as_growth(s2.scopes@, self.scopes@, s0.visible_scopes@, a));
                lemma_joins_resolved_stable_except(
                    s1.scopes@,
                    self.scopes@,
                    s0.visible_scopes@,
                    l0,
                    j0.take(i as int),
                    before,
                    a,
                );
                lemma_factor_resolved_stable_except(
                    s2.scopes@,
                    self.scopes@,
                    s0.visible_scopes@,
                    l0 + i,
                    j0[i as int].relation,
                    out@[i as int].relation,
                    a,
                );
                assert(self.scopes@[a].sources.entries@.take(l0 + i + 1) =~= self.scopes@[a].sources.entries@);
                assert(earlier_scope(self.scopes@[a], l0 + i + 1, self.scopes@[a]));
                assert(self.scopes@.update(a, self.scopes@[a]) =~= self.scopes@);
                assert(j0.take(i + 1).drop_last() =~= j0.take(i as int));
                assert(joins_resolved(self.scopes@, s0.visible_scopes@, l0, j0.take(i + 1), out@));
                let l0 = s0.scopes@[a].sources.entries@.len() as int;
                let e1 = s1.scopes@[a].sources.entries@;
                let e2 = s2.scopes@[a].sources.entries@;
                lemma_sources_for_stable(&s1, &s2, e1.skip(l0), joins_factors(j0.take(i as int)));
                assert(e2.skip(l0) =~= e1.skip(l0).push(e2.last()));
                assert(j0.take(i + 1).drop_last() =~= j0.take(i as int));
                assert(joins_factors(j0.take(i + 1)) == joins_factors(j0.take(i as int)).push(j0[i as int].relation));
                assert(sources_for(s2.scopes@, s0.visible_scopes@, e2.skip(l0), joins_factors(j0.take(i + 1))));
                lemma_sources_for_stable(&s2, self, e2.skip(l0), joins_factors(j0.take(i + 1)));
                assert(e2.take(l0) =~= e1.take(l0));
                lemma_frames_gained_trans(
                    s1.accumulator_stack@,
                    s2.accumulator_stack@,
                    self.accumulator_stack@,
                    factor_refs(out@[i as int].relation),
                    opt_expr_refs(out@[i as int].on),
                );
                lemma_frames_gained_trans(
                    s0.accumulator_stack@,
                    s1.accumulator_stack@,
                    self.accumulator_stack@,
                    joins_refs(before),
                    join_refs(out@[i as int]),
                );
            }
            i = i + 1;
        }
        proof {
            assert(j0.take(n as int) =~= j0);
        }
        Ok(out)
    }

    /// Resolves a FROM list in order, each item then its joins, and hands
    /// back the list's qualified form.
    #[verifier::spinoff_prover]
    #[verifier::rlimit(60)]
    pub fn resolve_from(&mut self, from: &Vec<TableWithJoins>) -> (r: Result<
        Vec<TableWithJoins>,
        ResolutionError,
    >)
        requires
            old(self).wf(),
        ensures
            r matches Ok(nt) ==> from_rewritten(from@, nt@),
            r matches Err(err) ==> from_can_fail(from@, err),
            r matches Err(err) ==> from_fails_with(final(self).scopes@, old(self).visible_scopes@, from@, err),
            final(self).wf(),
            final(self).continues_within(old(self)),
            !(r matches Err(ResolutionError::UnsupportedQueryType(_))),
            final(self).keeps_ctes(old(self)),
            final(self).keeps_selected(old(self)),
            r matches Ok(nt) ==> entry_names(final(self).old_active(old(self)).sources.entries@) == entry_names(
                old(self).scopes@[old(self).active_scope as int].sources.entries@,
            ) + from_keys(nt@),
            r matches Ok(nt) ==> role_sets(final(self).old_active(old(self))) == add_to_role(
                role_sets(old(self).scopes@[old(self).active_scope as int]),
                ColumnRole::Join,
                from_on_refs(nt@),
            ),
            r matches Ok(nt) ==> frames_gained(
                old(self).accumulator_stack@,
                final(self).accumulator_stack@,
                from_refs(nt@),
            ),
            r is Ok ==> sources_for(
                final(self).scopes@,
                old(self).visible_scopes@,
                final(self).old_active(old(self)).sources.entries@.skip(
                    old(self).scopes@[old(self).active_scope as int].sources.entries@.len() as int,
                ),
                from_factors(from@),
            ),
            from_cte_tables(old(self).scopes@, old(self).visible_scopes@, from@) ==> r is Ok,
            forall|names: Seq<Seq<char>>|
                #![trigger from_tables_among(from@, names)]
                names_bound(old(self).scopes@, old(self).visible_scopes@, names) && from_tables_among(from@, names)
                    ==> !(r matches Err(ResolutionError::TableNotFound(_))),
            r is Ok ==> final(self).old_active(old(self)).sources.entries@.len() == old(self).scopes@[old(
                self,
            ).active_scope as int].sources.entries@.len() + from_factors(from@).len(),
            from_flat(from@) ==> final(self).scopes@.len() == old(self).scopes@.len(),
            r matches Ok(nt) ==> from_resolved(
                final(self).scopes@,
                old(self).visible_scopes@,
                old(self).scopes@[old(self).active_scope as int].sources.entries@.len() as int,
                from@,
                nt@,
            ),
        decreases from, 0nat,
    {
        let ghost s0 = *self;
        let ghost t0 = from@;
        let n = from.len();
        let mut out: Vec<TableWithJoins> = Vec::new();
        proof {
            lemma_continues_refl(self);
            lemma_continues_within(&s0, self);
            lemma_frames_gained_nothing(self.accumulator_stack@);
            assert(out@ =~= Seq::<TableWithJoins>::empty());
            assert(t0.take(0) =~= Seq::<TableWithJoins>::empty());
            assert(self.scopes@[self.active_scope as int].sources.entries@.skip(
                self.scopes@[self.active_scope as int].sources.entries@.len() as int,
            ) =~= Seq::<SourceEntry>::empty());
            lemma_add_to_role_nothing(role_sets(self.scopes@[self.active_scope as int]), ColumnRole::Join);
            assert(entry_names(self.scopes@[self.active_scope as int].sources.entries@) =~= entry_names(
                self.scopes@[self.active_scope as int].sources.entries@,
            ) + from_keys(out@));
        }
        let mut i: usize = 0;
        while i < n
            invariant
                0 <= i <= n,
                n == t0.len(),
                t0 == from@,
                s0 == *old(self),
                s0.wf(),
                out@.len() == i,
                self.wf(),
                self.continues_within(&s0),
                from_flat(t0) ==> self.scopes@.len() == s0.scopes@.len(),
                from_resolved(
                    self.scopes@,
                    s0.visible_scopes@,
                    s0.scopes@[s0.active_scope as int].sources.entries@.len() as int,
                    t0.take(i as int),
                    out@,
                ),
                from_rewritten(t0.take(i as int), out@),
                frames_gained(s0.accumulator_stack@, self.accumulator_stack@, from_refs(out@)),
                self.keeps_ctes(&s0),
                self.keeps_selected(&s0),
                entry_names(self.old_active(&s0).sources.entries@) == entry_names(
                    s0.scopes@[s0.active_scope as int].sources.entries@,
                ) + from_keys(out@),
                role_sets(self.old_active(&s0)) == add_to_role(
                    role_sets(s0.scopes@[s0.active_scope as int]),
                    ColumnRole::Join,
                    from_on_refs(out@),
                ),
                sources_for(
                    self.scopes@,
                    s0.visible_scopes@,
                    self.old_active(&s0).sources.entries@.skip(
                        s0.scopes@[s0.active_scope as int].sources.entries@.len() as int,
                    ),
                    from_factors(t0.take(i as int)),
                ),
                self.old_active(&s0).sources.entries@.len() >= s0.scopes@[s0.active_scope as int].sources.entries@.len(),
            decreases n - i,
        {
            let ghost s1 = *self;
            let ghost before = out@;
            proof {
                assert(decreases_to!(*from => from@[i as int].relation)) by {
                    assert(decreases_to!(*from => from@[i as int]));
                }
            }
            proof {
                if from_cte_tables(s0.scopes@, s0.visible_scopes@, t0) {
                    let t = t0[i as int];
                    assert(t.joins@.len() == 0);
                    let nm = t.relation->Table_name;
                    assert forall|k: int| 0 <= k < s0.scopes@.len() implies (#[trigger] self.scopes@[k]).ctes
                        == s0.scopes@[k].ctes by {
                        if k != s0.active_scope {
                            assert(same_but_children(s0.scopes@[k], self.scopes@[k]));
                        }
                    }
                    lemma_cte_lookup_from_stable(
                        s0.scopes@,
                        self.scopes@,
                        s0.visible_scopes@,
                        s0.visible_scopes@.len() - 1,
                        nm@[0]@,
                    );
                }
            }
            proof {
                if from_flat(t0) {
                    assert(t0[i as int].relation is Table && joins_flat(t0[i as int].joins@));
                }
            }
            let r = self.resolve_table_factor(&from[i].relation);
            proof {
                lemma_within_trans(&s0, &s1, self);
                let a = s0.active_scope as int;
                assert(s1.scopes@[a].ctes@.take(s0.scopes@[a].ctes@.len() as int) =~= s0.scopes@[a].ctes@);
                lemma_chain_bindings_within(&s0, &s1);
                assert forall|names: Seq<Seq<char>>|
                    names_bound(s0.scopes@, s0.visible_scopes@, names) && #[trigger] from_tables_among(t0, names)
                        implies !(r matches Err(ResolutionError::TableNotFound(_))) by {
                    lemma_from_tables_among_at(t0, names, i as int);
                    lemma_names_bound_kept(s0.scopes@, s1.scopes@, s0.visible_scopes@, names);
                }
                if r is Err {
                    assert(table_with_joins_can_fail(t0[i as int], r->Err_0));
                    lemma_from_can_fail_at(t0, i as int, r->Err_0);
                    assert(table_with_joins_fails_with(self.scopes@, s0.visible_scopes@, t0[i as int], r->Err_0));
                    lemma_from_fails_with_at(self.scopes@, s0.visible_scopes@, t0, i as int, r->Err_0);
                }
            }
            let relation = r?;
            let ghost s2 = *self;
            proof {
                assert(decreases_to!(*from => from@[i as int].joins)) by {
                    assert(decreases_to!(*from => from@[i as int]));
                }
            }
            let r = self.resolve_joins(&from[i].joins);
            proof {
                lemma_within_trans(&s0, &s2, self);
                let a = s0.active_scope as int;
                assert(s2.scopes@[a].ctes@.take(s0.scopes@[a].ctes@.len() as int) =~= s0.scopes@[a].ctes@);
                lemma_chain_bindings_within(&s0, &s2);
                assert forall|names: Seq<Seq<char>>|
                    names_bound(s0.scopes@, s0.visible_scopes@, names) && #[trigger] from_tables_among(t0, names)
                        implies !(r matches Err(ResolutionError::TableNotFound(_))) by {
                    lemma_from_tables_among_at(t0, names, i as int);
                    lemma_names_bound_kept(s0.scopes@, s2.scopes@, s0.visible_scopes@, names);
                }
                if r is Err {
                    assert(table_with_joins_can_fail(t0[i as int], r->Err_0));
                    lemma_from_can_fail_at(t0, i as int, r->Err_0);
                    assert(table_with_joins_fails_with(self.scopes@, s0.visible_scopes@, t0[i as int], r->Err_0));
                    lemma_from_fails_with_at(self.scopes@, s0.visible_scopes@, t0, i as int, r->Err_0);
                }
            }
            let joins = r?;
            out.push(TableWithJoins { relation, joins });
            proof {
                assert(out@.take(i as int) =~= before);
                assert(out@.take(i + 1) =~= out@);
                assert(out@.drop_last() =~= before);
                let a = s0.active_scope as int;
                assert(entry_names(s2.scopes@[a].sources.entries@) =~= entry_names(
                    s1.scopes@[a].sources.entries@,
                ).push(factor_key(out@[i as int].relation)));
                assert(entry_names(self.scopes@[a].sources.entries@) =~= entry_names(
                    s0.scopes@[a].sources.entries@,
                ) + from_keys(out@));
                lemma_add_to_role_twice(
                    role_sets(s0.scopes@[a]),
                    ColumnRole::Join,
                    from_on_refs(before),
                    joins_on_refs(out@[i as int].joins@),
                );
                lemma_from_refs_push(out@, i as int);
                lemma_from_rewritten_push(t0, out@, i as int);
                let l0 = s0.scopes@[a].sources.entries@.len() as int;
                let e1 = s1.scopes@[a].sources.entries@;
                let e2 = s2.scopes@[a].sources.entries@;
                let e3 = self.scopes@[a].sources.entries@;
                let l2 = e2.len() as int;
                lemma_sources_for_stable(&s1, &s2, e1.skip(l0), from_factors(t0.take(i as int)));
                assert(e2.skip(l0) =~= e1.skip(l0).push(e2.last()));
                assert(sources_for(
                    s2.scopes@,
                    s0.visible_scopes@,
                    e2.skip(l0),
                    from_factors(t0.take(i as int)).push(t0[i as int].relation),
                ));
                lemma_sources_for_stable(
                    &s2,
                    self,
                    e2.skip(l0),
                    from_factors(t0.take(i as int)).push(t0[i as int].relation),
                );
                assert(e3.skip(l0) =~= e2.skip(l0) + e3.skip(l2));
                lemma_sources_for_append(
                    self.scopes@,
                    s0.visible_scopes@,
                    e2.skip(l0),
                    from_factors(t0.take(i as int)).push(t0[i as int].relation),
                    e3.skip(l2),
                    joins_factors(t0[i as int].joins@),
                );
                assert(t0.take(i + 1).drop_last() =~= t0.take(i as int));
                lemma_within_trans(&s1, &s2, self);
                assert(parents_below(s1.scopes@));
                assert(parents_below(s2.scopes@));
                lemma_lookups_kept_except_within(&s1, self);
                lemma_lookups_kept_except_within(&s2, self);
                let l1 = e1.len() as int;
                assert(e3.take(l1) =~= e3.take(l2).take(l1));
                assert(e2.take(l1) =~= e1);
                assert(change_seen_as_growth(s1.scopes@, self.scopes@, s0.visible_scopes@, a));
                assert(change_seen_as_growth(s2.scopes@, self.scopes@, s0.visible_scopes@, a));
                lemma_from_resolved_stable_except(
                    s1.scopes@,
                    self.scopes@,
                    s0.visible_scopes@,
                    l0,
                    t0.take(i as int),
                    before,
                    a,
                );
                let c = l0 + from_factors(t0.take(i as int)).len();
                assert(c == l1);
                lemma_factor_resolved_stable_except(
                    s2.scopes@,
                    self.scopes@,
                    s0.visible_scopes@,
                    c,
                    t0[i as int].relation,
                    out@[i as int].relation,
                    a,
                );
                assert(from_resolved(self.scopes@, s0.visible_scopes@, l0, t0.take(i + 1), out@));
                lemma_frames_gained_trans(
                    s1.accumulator_stack@,
                    s2.accumulator_stack@,
                    self.accumulator_stack@,
                    factor_refs(out@[i as int].relation),
                    joins_refs(out@[i as int].joins@),
                );
                lemma_frames_gained_trans(
                    s0.accumulator_stack@,
                    s1.accumulator_stack@,
                    self.accumulator_stack@,
                    from_refs(before),
                    table_with_joins_refs(out@[i as int]),
                );
            }
            i = i + 1;
        }
        proof {
            assert(t0.take(n as int) =~= t0);
        }
        Ok(out)
    }
}

} // verus!
