//! SELECT blocks: FROM, projection, WHERE, GROUP BY, HAVING.
use vstd::prelude::*;

use crate::ast::{Expr, Select, SelectItem, TableWithJoins};
use crate::resolve::column::{names_entry, qualifier_names, strings_view};
use crate::resolve::errors::ResolutionError;
use crate::resolve::rewrite::{
    item_rewritten, items_rewritten, lemma_items_rewritten_push, opt_expr_rewritten, select_rewritten,
};
use crate::resolve::failures::{
    item_can_fail, items_can_fail, lemma_items_can_fail_at, opt_expr_can_fail, select_can_fail,
};
use crate::resolve::from::copy_names;
use crate::resolve::query::{from_tables_among, names_bound};
use crate::resolve::refs::{
    expr_refs, exprs_refs, exprs_resolved, from_refs, item_refs, item_resolved, items_refs,
    items_resolved, lemma_expr_resolved_stable, lemma_exprs_resolved_stable, lemma_items_refs_push,
    lemma_items_resolved_push, lemma_items_resolved_stable, lemma_opt_expr_resolved_stable,
    opt_expr_refs, opt_expr_resolved, select_refs, select_resolved, expr_fails_with, exprs_fails_with,
    lemma_expr_fails_with_stable, lemma_exprs_fails_with_stable, lookups_kept, expr_lookups_found,
    expr_plain, exprs_lookups_found, exprs_plain, from_fails_with, lemma_lookups_kept_except_of, lemma_from_resolved_stable_except, change_seen_as_growth, lemma_plain_fails_by_lookup, lemma_plain_list_fails_by_lookup,
};
use crate::resolve::failures::from_can_fail;
use crate::resolve::scope::sources::SourceEntry;
use crate::resolve::scope::{ColumnKey, ColumnRef, ColumnSet, ResolvedScope, SelectedColumn};
use crate::resolve::{
    frames_gained, lemma_continues_refl, lemma_continues_within, lemma_frames_gained_nothing,
    lemma_frames_gained_trans, lemma_lookups_kept_within, lemma_within_trans, add_to_role,
    role_sets, ColumnRole, ResolutionContext, RoleSets,
};
use crate::resolve::from::{
    entry_names, from_cte_tables, from_factors, from_flat, from_keys, from_on_refs, lemma_sources_for_stable, sources_for,
};
use crate::schema::SchemaProvider;

verus! {

/// A selected column as a value: its name and its dependency set.
pub type ColumnView = (Seq<char>, Set<ColumnKey>);

/// The name of an unaliased SELECT item: a column's name, a function's name,
/// else `?column?`.
pub open spec fn expr_output_name(e: Expr) -> Seq<char> {
    match e {
        Expr::Identifier(n) => n@,
        Expr::CompoundIdentifier { qualifier, name } => name@,
        Expr::Function(f) => if f.name@.len() > 0 {
            f.name@.last()@
        } else {
            "?column?"@
        },
        _ => "?column?"@,
    }
}

/// A selected column as a value.
pub open spec fn column_view(c: SelectedColumn) -> ColumnView {
    (c.name@, c.dependencies@)
}

/// The SELECT list of a scope as values.
pub open spec fn selected_views(s: ResolvedScope) -> Seq<ColumnView> {
    s.selected_columns@.map_values(|c: SelectedColumn| column_view(c))
}

/// The columns a wildcard takes from one source: each of its columns, under
/// its own name, depending on that column of that source.
pub open spec fn entry_columns(e: SourceEntry) -> Seq<ColumnView> {
    e.source.spec_columns().map_values(|c: String| (c@, set![(c@, e.name@)]))
}

/// The columns a wildcard with qualifier `q` takes from `entries`: those of
/// every source that `q` names, in the order of the sources.
pub open spec fn wildcard_columns(entries: Seq<SourceEntry>, q: Seq<Seq<char>>) -> Seq<ColumnView>
    decreases entries.len(),
{
    if entries.len() == 0 {
        Seq::empty()
    } else {
        wildcard_columns(entries.drop_last(), q) + if qualifier_names(q, entries.last()) {
            entry_columns(entries.last())
        } else {
            Seq::empty()
        }
    }
}

/// Whether some source of `entries` is named by `q`.
pub open spec fn some_source_named(entries: Seq<SourceEntry>, q: Seq<Seq<char>>) -> bool {
    exists|i: int| 0 <= i < entries.len() && #[trigger] qualifier_names(q, entries[i])
}

/// `err` is an error that resolving SELECT item `item` in the scope that
/// ends `visible` can end in: one of its expression (`expr_fails_with`), or,
/// for a qualified wildcard, that no source of that scope is named by its
/// qualifier.
pub open spec fn item_fails_with(
    scopes: Seq<ResolvedScope>,
    visible: Seq<usize>,
    item: SelectItem,
    err: ResolutionError,
) -> bool
    decreases item,
{
    match item {
        SelectItem::UnnamedExpr(e) => expr_fails_with(scopes, visible, e, err),
        SelectItem::ExprWithAlias { expr, .. } => expr_fails_with(scopes, visible, expr, err),
        SelectItem::Wildcard => false,
        SelectItem::QualifiedWildcard(q) => (err matches ResolutionError::SourceNotFound(n) && strings_view(
            n@,
        ) == strings_view(q@)) && !some_source_named(
            scopes[visible.last() as int].sources.entries@,
            strings_view(q@),
        ),
    }
}

/// `item_fails_with` for one of the items `items`.
pub open spec fn items_fails_with(
    scopes: Seq<ResolvedScope>,
    visible: Seq<usize>,
    items: Seq<SelectItem>,
    err: ResolutionError,
) -> bool
    decreases items,
{
    items.len() > 0 && (items_fails_with(scopes, visible, items.drop_last(), err) || item_fails_with(
        scopes,
        visible,
        items.last(),
        err,
    ))
}

/// `expr_fails_with` for an optional expression.
pub open spec fn opt_expr_fails_with(
    scopes: Seq<ResolvedScope>,
    visible: Seq<usize>,
    e: Option<Expr>,
    err: ResolutionError,
) -> bool
    decreases e,
{
    match e {
        Some(x) => expr_fails_with(scopes, visible, x, err),
        None => false,
    }
}

/// `err` is an error that resolving SELECT block `s` in the scope that ends
/// `visible` can end in: one of its FROM clause (`from_fails_with`), or,
/// once every FROM item has been registered as its source
/// (`from_registered`), the failure of a lookup (or of a wildcard
/// qualifier) in its SELECT list, WHERE, GROUP BY or HAVING, against the
/// scope as its FROM clause left it.
pub open spec fn select_fails_with(
    scopes: Seq<ResolvedScope>,
    visible: Seq<usize>,
    s: Select,
    err: ResolutionError,
) -> bool
    decreases s,
{
    ||| from_fails_with(scopes, visible, s.from@, err)
    ||| from_registered(scopes, visible, s.from@) && {
        ||| items_fails_with(scopes, visible, s.projection@, err)
        ||| opt_expr_fails_with(scopes, visible, s.selection, err)
        ||| exprs_fails_with(scopes, visible, s.group_by@, err)
        ||| opt_expr_fails_with(scopes, visible, s.having, err)
    }
}

/// The last sources of the scope that ends `visible` are what the items of
/// FROM list `ts` resolve to (`sources_for`), one for each, in order.
pub open spec fn from_registered(scopes: Seq<ResolvedScope>, visible: Seq<usize>, ts: Seq<TableWithJoins>) -> bool {
    let a = visible.last() as int;
    let es = scopes[a].sources.entries@;
    let fs = from_factors(ts);
    es.len() >= fs.len() && sources_for(scopes, visible, es.skip(es.len() - fs.len()), fs)
}

/// Whether an optional expression holds no nested query.
pub open spec fn opt_expr_plain(e: Option<Expr>) -> bool {
    match e {
        Some(x) => expr_plain(x),
        None => true,
    }
}

/// Whether SELECT item `item` holds no nested query.
pub open spec fn item_plain(item: SelectItem) -> bool {
    match item {
        SelectItem::UnnamedExpr(e) => expr_plain(e),
        SelectItem::ExprWithAlias { expr, .. } => expr_plain(expr),
        _ => true,
    }
}

/// Whether no SELECT item of `items` holds a nested query.
pub open spec fn items_plain(items: Seq<SelectItem>) -> bool {
    forall|i: int| 0 <= i < items.len() ==> item_plain(#[trigger] items[i])
}

/// Whether the SELECT list, WHERE, GROUP BY and HAVING of `s` hold no nested
/// query.
pub open spec fn select_plain(s: Select) -> bool {
    &&& items_plain(s.projection@)
    &&& opt_expr_plain(s.selection)
    &&& exprs_plain(s.group_by@)
    &&& opt_expr_plain(s.having)
}

/// A SELECT list without nested queries can fail only by a failed lookup or
/// a wildcard qualifier that names no source.
pub proof fn lemma_plain_items_fail_by_lookup(
    scopes: Seq<ResolvedScope>,
    visible: Seq<usize>,
    items: Seq<SelectItem>,
    err: ResolutionError,
)
    requires
        items_plain(items),
        items_fails_with(scopes, visible, items, err),
    ensures
        err is ColumnNotFound || err is AmbiguousColumn || err is SourceNotFound,
    decreases items.len(),
{
    assert(item_plain(items[items.len() - 1]));
    if items_fails_with(scopes, visible, items.drop_last(), err) {
        assert forall|i: int| 0 <= i < items.drop_last().len() implies item_plain(
            #[trigger] items.drop_last()[i],
        ) by {
            assert(items.drop_last()[i] == items[i]);
        }
        lemma_plain_items_fail_by_lookup(scopes, visible, items.drop_last(), err);
    } else {
        assert(item_fails_with(scopes, visible, items.last(), err));
        match items.last() {
            SelectItem::UnnamedExpr(e) => lemma_plain_fails_by_lookup(scopes, visible, e, err),
            SelectItem::ExprWithAlias { expr, .. } => lemma_plain_fails_by_lookup(scopes, visible, expr, err),
            _ => {},
        }
    }
}

/// An optional expression without nested queries can fail only by a failed
/// lookup.
pub proof fn lemma_plain_opt_fails_by_lookup(
    scopes: Seq<ResolvedScope>,
    visible: Seq<usize>,
    e: Option<Expr>,
    err: ResolutionError,
)
    requires
        opt_expr_plain(e),
        opt_expr_fails_with(scopes, visible, e, err),
    ensures
        err is ColumnNotFound || err is AmbiguousColumn,
{
    if let Some(x) = e {
        lemma_plain_fails_by_lookup(scopes, visible, x, err);
    }
}

/// Whether resolving SELECT item `item` in the scope that ends `visible` is
/// decided to succeed by the arena alone: its expression holds no nested
/// query and every lookup in it finds exactly one source, or it is a
/// wildcard whose qualifier, if any, names a source of that scope.
pub open spec fn item_ok(scopes: Seq<ResolvedScope>, visible: Seq<usize>, item: SelectItem) -> bool {
    match item {
        SelectItem::UnnamedExpr(e) => expr_plain(e) && expr_lookups_found(scopes, visible, e),
        SelectItem::ExprWithAlias { expr, .. } => expr_plain(expr) && expr_lookups_found(scopes, visible, expr),
        SelectItem::Wildcard => true,
        SelectItem::QualifiedWildcard(q) => some_source_named(
            scopes[visible.last() as int].sources.entries@,
            strings_view(q@),
        ),
    }
}

/// `item_ok` for each of the items `items`.
pub open spec fn items_ok(scopes: Seq<ResolvedScope>, visible: Seq<usize>, items: Seq<SelectItem>) -> bool
    decreases items.len(),
{
    items.len() > 0 ==> items_ok(scopes, visible, items.drop_last()) && item_ok(scopes, visible, items.last())
}

/// Whether an optional expression holds no nested query and every lookup in
/// it finds exactly one source.
pub open spec fn opt_expr_ok(scopes: Seq<ResolvedScope>, visible: Seq<usize>, e: Option<Expr>) -> bool {
    match e {
        Some(x) => expr_plain(x) && expr_lookups_found(scopes, visible, x),
        None => true,
    }
}

/// Whether everything of SELECT block `s` past its FROM clause is decided to
/// resolve by the arena alone (`item_ok`, `opt_expr_ok`).
pub open spec fn select_ok(scopes: Seq<ResolvedScope>, visible: Seq<usize>, s: Select) -> bool {
    &&& items_ok(scopes, visible, s.projection@)
    &&& opt_expr_ok(scopes, visible, s.selection)
    &&& exprs_plain(s.group_by@)
    &&& exprs_lookups_found(scopes, visible, s.group_by@)
    &&& opt_expr_ok(scopes, visible, s.having)
}

/// An item of a list whose items are all `item_ok` is `item_ok`.
pub proof fn lemma_items_ok_at(scopes: Seq<ResolvedScope>, visible: Seq<usize>, items: Seq<SelectItem>, i: int)
    requires
        0 <= i < items.len(),
        items_ok(scopes, visible, items),
    ensures
        item_ok(scopes, visible, items[i]),
    decreases items.len(),
{
    if i < items.len() - 1 {
        lemma_items_ok_at(scopes, visible, items.drop_last(), i);
    }
}

/// `item_ok` reads only what `lookups_kept` keeps.
pub proof fn lemma_item_ok_stable(
    s1: Seq<ResolvedScope>,
    s2: Seq<ResolvedScope>,
    visible: Seq<usize>,
    item: SelectItem,
)
    requires
        lookups_kept(s1, s2),
        visible.len() > 0,
        forall|j: int| 0 <= j < visible.len() ==> #[trigger] visible[j] < s1.len(),
    ensures
        item_ok(s1, visible, item) == item_ok(s2, visible, item),
{
    assert(visible[visible.len() - 1] < s1.len());
    match item {
        SelectItem::UnnamedExpr(e) => lemma_expr_fails_with_stable(s1, s2, visible, e, arbitrary()),
        SelectItem::ExprWithAlias { expr, .. } => lemma_expr_fails_with_stable(
            s1,
            s2,
            visible,
            expr,
            arbitrary(),
        ),
        _ => {},
    }
}

/// `lemma_item_ok_stable` for lists.
pub proof fn lemma_items_ok_stable(
    s1: Seq<ResolvedScope>,
    s2: Seq<ResolvedScope>,
    visible: Seq<usize>,
    items: Seq<SelectItem>,
)
    requires
        lookups_kept(s1, s2),
        visible.len() > 0,
        forall|j: int| 0 <= j < visible.len() ==> #[trigger] visible[j] < s1.len(),
    ensures
        items_ok(s1, visible, items) == items_ok(s2, visible, items),
    decreases items.len(),
{
    if items.len() > 0 {
        lemma_items_ok_stable(s1, s2, visible, items.drop_last());
        lemma_item_ok_stable(s1, s2, visible, items.last());
    }
}

/// `select_ok` reads only what `lookups_kept` keeps.
pub proof fn lemma_select_ok_stable(s1: Seq<ResolvedScope>, s2: Seq<ResolvedScope>, visible: Seq<usize>, s: Select)
    requires
        lookups_kept(s1, s2),
        visible.len() > 0,
        forall|j: int| 0 <= j < visible.len() ==> #[trigger] visible[j] < s1.len(),
    ensures
        select_ok(s1, visible, s) == select_ok(s2, visible, s),
{
    lemma_items_ok_stable(s1, s2, visible, s.projection@);
    if let Some(x) = s.selection {
        lemma_expr_fails_with_stable(s1, s2, visible, x, arbitrary());
    }
    lemma_exprs_fails_with_stable(s1, s2, visible, s.group_by@, arbitrary());
    if let Some(x) = s.having {
        lemma_expr_fails_with_stable(s1, s2, visible, x, arbitrary());
    }
}

/// One item that can fail with `err` makes the list able to.
pub proof fn lemma_items_fails_with_at(
    scopes: Seq<ResolvedScope>,
    visible: Seq<usize>,
    items: Seq<SelectItem>,
    i: int,
    err: ResolutionError,
)
    requires
        0 <= i < items.len(),
        item_fails_with(scopes, visible, items[i], err),
    ensures
        items_fails_with(scopes, visible, items, err),
    decreases items.len(),
{
    if i < items.len() - 1 {
        lemma_items_fails_with_at(scopes, visible, items.drop_last(), i, err);
    }
}

/// The columns one resolved SELECT item adds to the SELECT list.
pub open spec fn item_columns(item: SelectItem, entries: Seq<SourceEntry>) -> Seq<ColumnView> {
    match item {
        SelectItem::UnnamedExpr(e) => seq![(expr_output_name(e), expr_refs(e))],
        SelectItem::ExprWithAlias { expr, alias } => seq![(alias@, expr_refs(expr))],
        SelectItem::Wildcard => wildcard_columns(entries, Seq::empty()),
        SelectItem::QualifiedWildcard(q) => wildcard_columns(entries, strings_view(q@)),
    }
}

/// The columns a resolved SELECT list adds, item after item.
pub open spec fn items_columns(items: Seq<SelectItem>, entries: Seq<SourceEntry>) -> Seq<ColumnView>
    decreases items.len(),
{
    if items.len() == 0 {
        Seq::empty()
    } else {
        items_columns(items.drop_last(), entries) + item_columns(items.last(), entries)
    }
}

/// The role-tagged column sets `t` of a scope after a resolved SELECT block
/// `s`: its `ON` columns join, its WHERE and HAVING columns filter, its
/// GROUP BY columns group.
pub open spec fn select_role_sets(t: RoleSets, s: Select) -> RoleSets {
    (
        t.0.union(from_on_refs(s.from@)),
        t.1.union(opt_expr_refs(s.selection)).union(opt_expr_refs(s.having)),
        t.2.union(exprs_refs(s.group_by@)),
        t.3,
    )
}

/// Scope `n` is scope `o` after resolving the SELECT block `s` in it: the
/// FROM items registered as sources under their keys, the SELECT list
/// appended, and the role-tagged columns added.
pub open spec fn select_applied(o: ResolvedScope, n: ResolvedScope, s: Select) -> bool {
    &&& entry_names(n.sources.entries@) == entry_names(o.sources.entries@) + from_keys(s.from@)
    &&& selected_views(n) == selected_views(o) + items_columns(s.projection@, n.sources.entries@)
    &&& role_sets(n) == select_role_sets(role_sets(o), s)
}

/// The name of an unaliased SELECT item.
pub fn output_name(e: &Expr) -> (name: String)
    ensures
        name@ == expr_output_name(*e),
{
    match e {
        Expr::Identifier(n) => n.clone(),
        Expr::CompoundIdentifier { qualifier, name } => name.clone(),
        Expr::Function(f) => {
            if f.name.len() > 0 {
                f.name[f.name.len() - 1].clone()
            } else {
                "?column?".to_owned()
            }
        },
        _ => "?column?".to_owned(),
    }
}

impl<'r, T: SchemaProvider> ResolutionContext<'r, T> {
    /// Appends to the active scope's SELECT list the columns that the
    /// wildcard with qualifier `q` stands for. A qualified wildcard whose
    /// qualifier names no source fails.
    pub fn expand_wildcard(&mut self, q: &Vec<String>, qualified: bool) -> (r: Result<(), ResolutionError>)
        requires
            old(self).wf(),
        ensures
            final(self).wf(),
            final(self).continues_within(old(self)),
            final(self).scopes@.len() == old(self).scopes@.len(),
            final(self).accumulator_stack == old(self).accumulator_stack,
            final(self).scopes@[old(self).active_scope as int].sources == old(
                self,
            ).scopes@[old(self).active_scope as int].sources,
            final(self).keeps_ctes(old(self)),
            final(self).keeps_roles(old(self)),
            ({
                let entries = old(self).scopes@[old(self).active_scope as int].sources.entries@;
                let fails = qualified && !some_source_named(entries, strings_view(q@));
                &&& fails ==> (r matches Err(ResolutionError::SourceNotFound(n)) && strings_view(n@)
                    == strings_view(q@))
                &&& !fails ==> r is Ok
                &&& r is Ok ==> selected_views(final(self).scopes@[old(self).active_scope as int])
                    == selected_views(old(self).scopes@[old(self).active_scope as int])
                    + wildcard_columns(entries, strings_view(q@))
            }),
    {
        let ghost s0 = *self;
        let ghost a = self.active_scope as int;
        let ghost entries = self.scopes@[a].sources.entries@;
        let ghost qv = strings_view(q@);
        let n = self.scopes[self.active_scope].sources.entries.len();
        let mut matched = false;
        proof {
            lemma_continues_refl(self);
            lemma_continues_within(&s0, self);
            assert(entries.take(0) =~= Seq::<SourceEntry>::empty());
            assert(selected_views(self.scopes@[a]) =~= selected_views(s0.scopes@[a])
                + wildcard_columns(entries.take(0), qv));
        }
        let mut i: usize = 0;
        while i < n
            invariant
                0 <= i <= n,
                s0 == *old(self),
                s0.wf(),
                a == s0.active_scope,
                n == entries.len(),
                entries == s0.scopes@[a].sources.entries@,
                qv == strings_view(q@),
                self.wf(),
                self.continues_within(&s0),
                self.scopes@.len() == s0.scopes@.len(),
                self.accumulator_stack == s0.accumulator_stack,
                self.scopes@[a].sources == s0.scopes@[a].sources,
                self.keeps_ctes(&s0),
                self.keeps_roles(&s0),
                matched == exists|j: int| 0 <= j < i && #[trigger] qualifier_names(qv, entries[j]),
                selected_views(self.scopes@[a]) == selected_views(s0.scopes@[a]) + wildcard_columns(
                    entries.take(i as int),
                    qv,
                ),
            decreases n - i,
        {
            let a_id = self.active_scope;
            proof {
                assert(entries.take(i + 1).drop_last() =~= entries.take(i as int));
            }
            if names_entry(q, &self.scopes[a_id].sources.entries[i]) {
                matched = true;
                let key = self.scopes[a_id].sources.entries[i].name.clone();
                let cols = copy_names(self.scopes[a_id].sources.entries[i].source.list_cols());
                let ghost ecols = entry_columns(entries[i as int]);
                let ghost base = selected_views(self.scopes@[a]);
                proof {
                    assert(strings_view(cols@) == strings_view(entries[i as int].source.spec_columns()));
                    assert(strings_view(cols@).len() == cols@.len());
                    assert(base =~= base + ecols.take(0));
                }
                let mut k: usize = 0;
                while k < cols.len()
                    invariant
                        0 <= k <= cols.len(),
                        s0 == *old(self),
                s0.wf(),
                        a == s0.active_scope,
                        a_id == a,
                        i < n,
                        n == entries.len(),
                        entries == s0.scopes@[a].sources.entries@,
                        key@ == entries[i as int].name@,
                        strings_view(cols@) == strings_view(entries[i as int].source.spec_columns()),
                        ecols == entry_columns(entries[i as int]),
                        ecols.len() == cols@.len(),
                        self.wf(),
                        self.continues_within(&s0),
                        self.scopes@.len() == s0.scopes@.len(),
                        self.accumulator_stack == s0.accumulator_stack,
                        self.scopes@[a].sources == s0.scopes@[a].sources,
                        self.keeps_ctes(&s0),
                        self.keeps_roles(&s0),
                        selected_views(self.scopes@[a]) == base + ecols.take(k as int),
                    decreases cols.len() - k,
                {
                    let name = cols[k].clone();
                    let mut deps = ColumnSet::new();
                    let c = ColumnRef { name: cols[k].clone(), source_name: key.clone() };
                    let ghost ckey = c@;
                    deps.insert(c);
                    let ghost s1 = *self;
                    proof {
                        assert(strings_view(cols@)[k as int] == cols@[k as int]@);
                        let sc = entries[i as int].source.spec_columns();
                        assert(strings_view(sc)[k as int] == sc[k as int]@);
                        assert(sc[k as int]@ == cols@[k as int]@);
                        assert(deps@ =~= set![ckey]);
                        assert(ecols[k as int] == (name@, deps@));
                    }
                    self.add_selected(SelectedColumn { name, dependencies: deps });
                    proof {
                        lemma_within_trans(&s0, &s1, self);
                        assert(ecols.take(k + 1) =~= ecols.take(k as int).push(ecols[k as int]));
                        assert(selected_views(self.scopes@[a]) =~= selected_views(s1.scopes@[a]).push(
                            ecols[k as int],
                        ));
                    }
                    k = k + 1;
                }
                proof {
                    assert(strings_view(cols@).len() == cols@.len());
                    assert(ecols.take(k as int) =~= ecols);
                }
            }
            i = i + 1;
        }
        proof {
            assert(entries.take(n as int) =~= entries);
        }
        if qualified && !matched {
            Err(ResolutionError::SourceNotFound(copy_names(q)))
        } else {
            Ok(())
        }
    }

    /// Resolves an optional expression under a fresh accumulator, tags the
    /// columns it collected with `role` in the active scope, and hands back
    /// its qualified form.
    pub fn resolve_optional_tagged(&mut self, e: &Option<Expr>, role: ColumnRole) -> (r: Result<
        Option<Expr>,
        ResolutionError,
    >)
        requires
            old(self).wf(),
        ensures
            r matches Ok(ne) ==> opt_expr_rewritten(*e, ne),
            r matches Err(err) ==> opt_expr_can_fail(*e, err),
            r matches Err(err) ==> opt_expr_fails_with(final(self).scopes@, old(self).visible_scopes@, *e, err),
            opt_expr_ok(old(self).scopes@, old(self).visible_scopes@, *e) ==> r is Ok,
            opt_expr_plain(*e) ==> final(self).scopes@.len() == old(self).scopes@.len(),
            final(self).wf(),
            final(self).continues_within(old(self)),
            !(r matches Err(ResolutionError::UnsupportedQueryType(_))),
            final(self).scopes@[old(self).active_scope as int].sources == old(
                self,
            ).scopes@[old(self).active_scope as int].sources,
            final(self).scopes@[old(self).active_scope as int].selected_columns == old(
                self,
            ).scopes@[old(self).active_scope as int].selected_columns,
            final(self).keeps_ctes(old(self)),
            r matches Ok(ne) ==> opt_expr_resolved(final(self).scopes@, old(self).visible_scopes@, *e, ne),
            r matches Ok(ne) ==> role_sets(final(self).old_active(old(self))) == add_to_role(
                role_sets(old(self).scopes@[old(self).active_scope as int]),
                role,
                opt_expr_refs(ne),
            ),
            r matches Ok(ne) ==> frames_gained(
                old(self).accumulator_stack@,
                final(self).accumulator_stack@,
                opt_expr_refs(ne),
            ),
        decreases e, 0nat,
    {
        let ghost s0 = *self;
        match e {
            Some(x) => {
                let r = self.resolve_collecting(x);
                proof {
                    lemma_continues_within(&s0, self);
                }
                let (q, cols) = r?;
                let ghost s1 = *self;
                self.tag_columns(role, &cols);
                proof {
                    lemma_within_trans(&s0, &s1, self);
                    lemma_lookups_kept_within(&s1, self);
                    lemma_expr_resolved_stable(s1.scopes@, self.scopes@, s0.visible_scopes@, *x, q);
                }
                Ok(Some(q))
            },
            None => {
                proof {
                    lemma_continues_refl(self);
                    lemma_continues_within(&s0, self);
                    lemma_frames_gained_nothing(self.accumulator_stack@);
                }
                Ok(None)
            },
        }
    }

    /// Resolves one SELECT item, appends the columns it stands for to the
    /// active scope's SELECT list, and hands back its qualified form.
    pub fn resolve_select_item(&mut self, item: &SelectItem) -> (r: Result<SelectItem, ResolutionError>)
        requires
            old(self).wf(),
        ensures
            r matches Ok(ni) ==> item_rewritten(*item, ni),
            r matches Err(err) ==> item_can_fail(*item, err),
            r matches Err(err) ==> item_fails_with(final(self).scopes@, old(self).visible_scopes@, *item, err),
            item_ok(old(self).scopes@, old(self).visible_scopes@, *item) ==> r is Ok,
            item_plain(*item) ==> final(self).scopes@.len() == old(self).scopes@.len(),
            final(self).wf(),
            final(self).continues_within(old(self)),
            !(r matches Err(ResolutionError::UnsupportedQueryType(_))),
            final(self).scopes@[old(self).active_scope as int].sources == old(
                self,
            ).scopes@[old(self).active_scope as int].sources,
            final(self).keeps_ctes(old(self)),
            final(self).keeps_roles(old(self)),
            r matches Ok(ni) ==> item_resolved(final(self).scopes@, old(self).visible_scopes@, *item, ni),
            r matches Ok(ni) ==> frames_gained(
                old(self).accumulator_stack@,
                final(self).accumulator_stack@,
                item_refs(ni),
            ),
            r matches Ok(ni) ==> selected_views(final(self).scopes@[old(self).active_scope as int])
                == selected_views(old(self).scopes@[old(self).active_scope as int]) + item_columns(
                ni,
                old(self).scopes@[old(self).active_scope as int].sources.entries@,
            ),
        decreases item, 0nat,
    {
        let ghost s0 = *self;
        let ghost a = self.active_scope as int;
        match item {
            SelectItem::UnnamedExpr(e) => {
                let r = self.resolve_collecting(e);
                proof {
                    lemma_continues_within(&s0, self);
                }
                let (q, deps) = r?;
                let name = output_name(&q);
                let ghost s1 = *self;
                let ghost col = (name@, deps@);
                self.add_selected(SelectedColumn { name, dependencies: deps });
                proof {
                    lemma_within_trans(&s0, &s1, self);
                    assert(selected_views(self.scopes@[a]) =~= selected_views(s0.scopes@[a]).push(col));
                    lemma_lookups_kept_within(&s1, self);
                    lemma_expr_resolved_stable(s1.scopes@, self.scopes@, s0.visible_scopes@, *e, q);
                }
                Ok(SelectItem::UnnamedExpr(q))
            },
            SelectItem::ExprWithAlias { expr, alias } => {
                let r = self.resolve_collecting(expr);
                proof {
                    lemma_continues_within(&s0, self);
                }
                let (q, deps) = r?;
                let name = alias.clone();
                let ghost s1 = *self;
                let ghost col = (name@, deps@);
                self.add_selected(SelectedColumn { name, dependencies: deps });
                proof {
                    lemma_within_trans(&s0, &s1, self);
                    assert(selected_views(self.scopes@[a]) =~= selected_views(s0.scopes@[a]).push(col));
                    lemma_lookups_kept_within(&s1, self);
                    lemma_expr_resolved_stable(s1.scopes@, self.scopes@, s0.visible_scopes@, *expr, q);
                }
                Ok(SelectItem::ExprWithAlias { expr: q, alias: alias.clone() })
            },
            SelectItem::Wildcard => {
                let no_qualifier: Vec<String> = Vec::new();
                assert(strings_view(no_qualifier@) =~= Seq::<Seq<char>>::empty());
                proof {
                    lemma_frames_gained_nothing(self.accumulator_stack@);
                }
                self.expand_wildcard(&no_qualifier, false)?;
                Ok(SelectItem::Wildcard)
            },
            SelectItem::QualifiedWildcard(q) => {
                proof {
                    lemma_frames_gained_nothing(self.accumulator_stack@);
                }
                self.expand_wildcard(q, true)?;
                Ok(SelectItem::QualifiedWildcard(copy_names(q)))
            },
        }
    }

    /// Resolves a SELECT list item after item and hands back its qualified
    /// form.
    pub fn resolve_projection(&mut self, items: &Vec<SelectItem>) -> (r: Result<
        Vec<SelectItem>,
        ResolutionError,
    >)
        requires
            old(self).wf(),
        ensures
            r matches Ok(ni) ==> items_rewritten(items@, ni@),
            r matches Err(err) ==> items_can_fail(items@, err),
            r matches Err(err) ==> items_fails_with(final(self).scopes@, old(self).visible_scopes@, items@, err),
            items_ok(old(self).scopes@, old(self).visible_scopes@, items@) ==> r is Ok,
            items_plain(items@) ==> final(self).scopes@.len() == old(self).scopes@.len(),
            final(self).wf(),
            final(self).continues_within(old(self)),
            !(r matches Err(ResolutionError::UnsupportedQueryType(_))),
            final(self).scopes@[old(self).active_scope as int].sources == old(
                self,
            ).scopes@[old(self).active_scope as int].sources,
            final(self).keeps_ctes(old(self)),
            final(self).keeps_roles(old(self)),
            r matches Ok(ni) ==> items_resolved(final(self).scopes@, old(self).visible_scopes@, items@, ni@),
            r matches Ok(ni) ==> frames_gained(
                old(self).accumulator_stack@,
                final(self).accumulator_stack@,
                items_refs(ni@),
            ),
            r matches Ok(ni) ==> selected_views(final(self).scopes@[old(self).active_scope as int])
                == selected_views(old(self).scopes@[old(self).active_scope as int]) + items_columns(
                ni@,
                old(self).scopes@[old(self).active_scope as int].sources.entries@,
            ),
        decreases items, 0nat,
    {
        let ghost s0 = *self;
        let ghost a = self.active_scope as int;
        let ghost entries = self.scopes@[a].sources.entries@;
        let ghost i0 = items@;
        let n = items.len();
        let mut out: Vec<SelectItem> = Vec::new();
        proof {
            lemma_continues_refl(self);
            lemma_continues_within(&s0, self);
            lemma_frames_gained_nothing(self.accumulator_stack@);
            assert(out@ =~= Seq::<SelectItem>::empty());
            assert(i0.take(0) =~= Seq::<SelectItem>::empty());
            assert(selected_views(self.scopes@[a]) =~= selected_views(s0.scopes@[a])
                + items_columns(out@, entries));
        }
        let mut i: usize = 0;
        while i < n
            invariant
                0 <= i <= n,
                n == i0.len(),
                i0 == items@,
                s0 == *old(self),
                s0.wf(),
                a == s0.active_scope,
                entries == s0.scopes@[a].sources.entries@,
                out@.len() == i,
                self.wf(),
                self.continues_within(&s0),
                items_plain(i0) ==> self.scopes@.len() == s0.scopes@.len(),
                self.scopes@[a].sources == s0.scopes@[a].sources,
                self.keeps_ctes(&s0),
                self.keeps_roles(&s0),
                items_rewritten(i0.take(i as int), out@),
                items_resolved(self.scopes@, s0.visible_scopes@, i0.take(i as int), out@),
                frames_gained(s0.accumulator_stack@, self.accumulator_stack@, items_refs(out@)),
                selected_views(self.scopes@[a]) == selected_views(s0.scopes@[a]) + items_columns(
                    out@,
                    entries,
                ),
            decreases n - i,
        {
            let ghost s1 = *self;
            let ghost before = out@;
            proof {
                assert(decreases_to!(*items => items@[i as int]));
            }
            let r = self.resolve_select_item(&items[i]);
            proof {
                if items_plain(i0) {
                    assert(item_plain(i0[i as int]));
                }
                lemma_within_trans(&s0, &s1, self);
                if r is Err {
                    lemma_items_can_fail_at(i0, i as int, r->Err_0);
                    lemma_lookups_kept_within(&s0, &s1);
                    lemma_items_fails_with_at(self.scopes@, s0.visible_scopes@, i0, i as int, r->Err_0);
                    if items_ok(s0.scopes@, s0.visible_scopes@, i0) {
                        lemma_items_ok_at(s0.scopes@, s0.visible_scopes@, i0, i as int);
                        lemma_item_ok_stable(s0.scopes@, s1.scopes@, s0.visible_scopes@, i0[i as int]);
                    }
                }
            }
            let ni = r?;
            out.push(ni);
            proof {
                assert(out@.take(i as int) =~= before);
                assert(out@.take(i + 1) =~= out@);
                assert(out@.drop_last() =~= before);
                lemma_items_refs_push(out@, i as int);
                lemma_items_rewritten_push(i0, out@, i as int);
                lemma_lookups_kept_within(&s1, self);
                lemma_items_resolved_stable(s1.scopes@, self.scopes@, s0.visible_scopes@, i0.take(i as int), before);
                lemma_items_resolved_push(self.scopes@, s0.visible_scopes@, i0, out@, i as int);
                lemma_frames_gained_trans(
                    s0.accumulator_stack@,
                    s1.accumulator_stack@,
                    self.accumulator_stack@,
                    items_refs(before),
                    item_refs(ni),
                );
                assert(selected_views(self.scopes@[a]) =~= selected_views(s0.scopes@[a])
                    + items_columns(out@, entries));
            }
            i = i + 1;
        }
        proof {
            assert(i0.take(n as int) =~= i0);
        }
        Ok(out)
    }

    /// Resolves a SELECT block in the active scope: FROM first, then the
    /// SELECT list, WHERE (filter columns), GROUP BY (group-by columns) and
    /// HAVING (filter columns); hands back the block's qualified form.
    pub fn resolve_select(&mut self, select: &Select) -> (r: Result<Select, ResolutionError>)
        requires
            old(self).wf(),
        ensures
            r matches Ok(ns) ==> select_rewritten(*select, ns),
            r matches Err(err) ==> select_can_fail(*select, err),
            r matches Err(err) ==> select_fails_with(final(self).scopes@, old(self).visible_scopes@, *select, err),
            from_cte_tables(old(self).scopes@, old(self).visible_scopes@, select.from@) && select_ok(
                final(self).scopes@,
                old(self).visible_scopes@,
                *select,
            ) ==> r is Ok,
            from_flat(select.from@) && select_plain(*select) ==> final(self).scopes@.len() == old(
                self,
            ).scopes@.len(),
            from_cte_tables(old(self).scopes@, old(self).visible_scopes@, select.from@) && select_plain(*select)
                ==> !(r matches Err(ResolutionError::TableNotFound(_))),
            forall|names: Seq<Seq<char>>|
                #![trigger from_tables_among(select.from@, names)]
                names_bound(old(self).scopes@, old(self).visible_scopes@, names) && from_tables_among(select.from@, names)
                    && select_plain(*select) ==> !(r matches Err(ResolutionError::TableNotFound(_))),
            final(self).wf(),
            final(self).continues_within(old(self)),
            !(r matches Err(ResolutionError::UnsupportedQueryType(_))),
            final(self).keeps_ctes(old(self)),
            r matches Ok(ns) ==> select_resolved(final(self).scopes@, old(self).visible_scopes@, *select, ns),
            r matches Ok(ns) ==> frames_gained(
                old(self).accumulator_stack@,
                final(self).accumulator_stack@,
                select_refs(ns),
            ),
            r matches Ok(ns) ==> select_applied(
                old(self).scopes@[old(self).active_scope as int],
                final(self).old_active(old(self)),
                ns,
            ),
            r is Ok || (r matches Err(err) && !from_can_fail(select.from@, err)) ==> sources_for(
                final(self).scopes@,
                old(self).visible_scopes@,
                final(self).old_active(old(self)).sources.entries@.skip(
                    old(self).scopes@[old(self).active_scope as int].sources.entries@.len() as int,
                ),
                from_factors(select.from@),
            ),
        decreases select, 0nat,
    {
        let ghost s0 = *self;
        let r0 = self.resolve_from(&select.from);
        proof {
            assert forall|names: Seq<Seq<char>>|
                names_bound(s0.scopes@, s0.visible_scopes@, names) && #[trigger] from_tables_among(select.from@, names)
                    && select_plain(*select) implies !(r0 matches Err(ResolutionError::TableNotFound(_))) by {
                assert(from_tables_among(select.from@, names));
            }
        }
        let from = r0?;
        let ghost s1 = *self;
        let r = self.resolve_projection(&select.projection);
        proof {
            lemma_within_trans(&s0, &s1, self);
            if r is Err {
                lemma_lookups_kept_within(&s1, self);
                lemma_select_ok_stable(s1.scopes@, self.scopes@, s0.visible_scopes@, *select);
                if select_plain(*select) {
                    lemma_plain_items_fail_by_lookup(self.scopes@, s1.visible_scopes@, select.projection@, r->Err_0);
                }
                let l0 = s0.scopes@[s0.active_scope as int].sources.entries@.len() as int;
                lemma_sources_for_stable(
                    &s1,
                    self,
                    s1.scopes@[s0.active_scope as int].sources.entries@.skip(l0),
                    from_factors(select.from@),
                );
                let es = self.scopes@[s0.active_scope as int].sources.entries@;
                assert(es.len() >= l0) by {
                    let e1 = s1.scopes@[s0.active_scope as int].sources.entries@;
                    assert(entry_names(e1).len() == e1.len());
                    assert(entry_names(s0.scopes@[s0.active_scope as int].sources.entries@).len() == l0);
                }
                assert(es.skip(l0).len() == from_factors(select.from@).len());
                assert(es.len() - from_factors(select.from@).len() == l0);
                assert(from_registered(self.scopes@, s0.visible_scopes@, select.from@));
            }
        }
        let projection = r?;
        let ghost s2 = *self;
        let r = self.resolve_optional_tagged(&select.selection, ColumnRole::Filter);
        proof {
            lemma_within_trans(&s0, &s2, self);
            if r is Err {
                lemma_lookups_kept_within(&s2, self);
                lemma_select_ok_stable(s2.scopes@, self.scopes@, s0.visible_scopes@, *select);
                if select_plain(*select) {
                    lemma_plain_opt_fails_by_lookup(self.scopes@, s2.visible_scopes@, select.selection, r->Err_0);
                }
                let l0 = s0.scopes@[s0.active_scope as int].sources.entries@.len() as int;
                lemma_sources_for_stable(
                    &s1,
                    self,
                    s1.scopes@[s0.active_scope as int].sources.entries@.skip(l0),
                    from_factors(select.from@),
                );
                let es = self.scopes@[s0.active_scope as int].sources.entries@;
                assert(es.len() >= l0) by {
                    let e1 = s1.scopes@[s0.active_scope as int].sources.entries@;
                    assert(entry_names(e1).len() == e1.len());
                    assert(entry_names(s0.scopes@[s0.active_scope as int].sources.entries@).len() == l0);
                }
                assert(es.skip(l0).len() == from_factors(select.from@).len());
                assert(es.len() - from_factors(select.from@).len() == l0);
                assert(from_registered(self.scopes@, s0.visible_scopes@, select.from@));
            }
        }
        let selection = r?;
        let ghost s3 = *self;
        let r = self.resolve_collecting_slice(&select.group_by);
        proof {
            lemma_continues_within(&s3, self);
            lemma_within_trans(&s0, &s3, self);
            if r is Err {
                lemma_lookups_kept_within(&s3, self);
                lemma_select_ok_stable(s3.scopes@, self.scopes@, s0.visible_scopes@, *select);
                if select_plain(*select) {
                    lemma_plain_list_fails_by_lookup(self.scopes@, s3.visible_scopes@, select.group_by@, r->Err_0);
                }
                let l0 = s0.scopes@[s0.active_scope as int].sources.entries@.len() as int;
                lemma_sources_for_stable(
                    &s1,
                    self,
                    s1.scopes@[s0.active_scope as int].sources.entries@.skip(l0),
                    from_factors(select.from@),
                );
                let es = self.scopes@[s0.active_scope as int].sources.entries@;
                assert(es.len() >= l0) by {
                    let e1 = s1.scopes@[s0.active_scope as int].sources.entries@;
                    assert(entry_names(e1).len() == e1.len());
                    assert(entry_names(s0.scopes@[s0.active_scope as int].sources.entries@).len() == l0);
                }
                assert(es.skip(l0).len() == from_factors(select.from@).len());
                assert(es.len() - from_factors(select.from@).len() == l0);
                assert(from_registered(self.scopes@, s0.visible_scopes@, select.from@));
            }
        }
        let (group_by, grouped) = r?;
        let ghost s4 = *self;
        self.tag_columns(ColumnRole::GroupBy, &grouped);
        proof {
            lemma_within_trans(&s0, &s4, self);
        }
        let ghost s5 = *self;
        let r = self.resolve_optional_tagged(&select.having, ColumnRole::Filter);
        proof {
            lemma_within_trans(&s0, &s5, self);
            if r is Err {
                lemma_lookups_kept_within(&s5, self);
                lemma_select_ok_stable(s5.scopes@, self.scopes@, s0.visible_scopes@, *select);
                if select_plain(*select) {
                    lemma_plain_opt_fails_by_lookup(self.scopes@, s5.visible_scopes@, select.having, r->Err_0);
                }
                let l0 = s0.scopes@[s0.active_scope as int].sources.entries@.len() as int;
                lemma_sources_for_stable(
                    &s1,
                    self,
                    s1.scopes@[s0.active_scope as int].sources.entries@.skip(l0),
                    from_factors(select.from@),
                );
                let es = self.scopes@[s0.active_scope as int].sources.entries@;
                assert(es.len() >= l0) by {
                    let e1 = s1.scopes@[s0.active_scope as int].sources.entries@;
                    assert(entry_names(e1).len() == e1.len());
                    assert(entry_names(s0.scopes@[s0.active_scope as int].sources.entries@).len() == l0);
                }
                assert(es.skip(l0).len() == from_factors(select.from@).len());
                assert(es.len() - from_factors(select.from@).len() == l0);
                assert(from_registered(self.scopes@, s0.visible_scopes@, select.from@));
            }
        }
        let having = r?;
        let ns = Select { projection, from, selection, group_by, having };
        proof {
            let a = s0.active_scope as int;
            let t = role_sets(s0.scopes@[a]);
            assert(role_sets(self.scopes@[a]) =~= select_role_sets(t, ns));
            lemma_frames_gained_trans(
                s0.accumulator_stack@,
                s1.accumulator_stack@,
                s2.accumulator_stack@,
                from_refs(ns.from@),
                items_refs(ns.projection@),
            );
            lemma_frames_gained_trans(
                s0.accumulator_stack@,
                s2.accumulator_stack@,
                s3.accumulator_stack@,
                from_refs(ns.from@).union(items_refs(ns.projection@)),
                opt_expr_refs(ns.selection),
            );
            lemma_frames_gained_trans(
                s0.accumulator_stack@,
                s3.accumulator_stack@,
                s4.accumulator_stack@,
                from_refs(ns.from@).union(items_refs(ns.projection@)).union(
                    opt_expr_refs(ns.selection),
                ),
                exprs_refs(ns.group_by@),
            );
            lemma_frames_gained_trans(
                s0.accumulator_stack@,
                s5.accumulator_stack@,
                self.accumulator_stack@,
                from_refs(ns.from@).union(items_refs(ns.projection@)).union(
                    opt_expr_refs(ns.selection),
                ).union(exprs_refs(ns.group_by@)),
                opt_expr_refs(ns.having),
            );
            // Every lookup after the FROM clause reads what the final arena holds.
            lemma_lookups_kept_within(&s1, self);
            lemma_lookups_kept_within(&s2, self);
            lemma_lookups_kept_within(&s3, self);
            lemma_lookups_kept_within(&s4, self);
            lemma_lookups_kept_within(&s5, self);
            lemma_lookups_kept_except_of(s1.scopes@, self.scopes@);
            let l0 = s0.scopes@[a].sources.entries@.len() as int;
            assert(change_seen_as_growth(s1.scopes@, self.scopes@, s0.visible_scopes@, -1));
            lemma_from_resolved_stable_except(
                s1.scopes@,
                self.scopes@,
                s0.visible_scopes@,
                l0,
                select.from@,
                ns.from@,
                -1,
            );
            lemma_items_resolved_stable(s2.scopes@, self.scopes@, s1.visible_scopes@, select.projection@, ns.projection@);
            lemma_opt_expr_resolved_stable(s3.scopes@, self.scopes@, s2.visible_scopes@, select.selection, ns.selection);
            lemma_exprs_resolved_stable(s4.scopes@, self.scopes@, s3.visible_scopes@, select.group_by@, ns.group_by@);
            lemma_opt_expr_resolved_stable(self.scopes@, self.scopes@, s5.visible_scopes@, select.having, ns.having);
            lemma_sources_for_stable(&s1, self, s1.scopes@[a].sources.entries@.skip(l0), from_factors(select.from@));
            assert(self.scopes@[a].sources == s1.scopes@[a].sources);
        }
        Ok(ns)
    }
}

} // verus!
