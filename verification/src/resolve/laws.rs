//! Properties of the resolver that span several operations.
use vstd::prelude::*;

use crate::resolve::column::{column_lookup, lookup_from, provides, scope_lookup, ColumnLookup};
use crate::ast::Expr;
use crate::resolve::errors::ResolutionError;
use crate::resolve::refs::{expr_fails_with, expr_resolved, exprs_fails_with, exprs_resolved};
use crate::ast::{Query, Select, SetExpr, TableFactor};
use crate::resolve::column::{has_column, qualifier_names};
use crate::resolve::from::{factor_key, from_on_refs};
use crate::resolve::query::{adopted_views, query_scope};
use crate::resolve::refs::{exprs_refs, opt_expr_refs};
use crate::resolve::scope::sources::SourceEntry;
use crate::resolve::scope::{ColumnKey, ColumnSet, ResolvedScope};
use crate::resolve::select::{select_applied, selected_views, wildcard_columns};
use crate::resolve::role_sets;
use crate::resolve::{frames_gained, lemma_frames_gained_nothing, lemma_frames_gained_trans, ResolutionContext};
use crate::schema::SchemaProvider;

verus! {

/// An accumulator pushed onto the stack (`push_accumulator`), then filled by
/// recording the columns `s` (`record_column`, and every resolution step that
/// records), collects exactly `s` when it is popped (`pop_accumulator`), and
/// every accumulator below it has gained `s` as well: dependencies propagate
/// through every level of nesting.
pub proof fn law_accumulator_round_trip(
    before_push: Seq<ColumnSet>,
    after_push: Seq<ColumnSet>,
    before_pop: Seq<ColumnSet>,
    s: Set<ColumnKey>,
)
    requires
        after_push.len() == before_push.len() + 1,
        forall|f: int| 0 <= f < before_push.len() ==> #[trigger] after_push[f] == before_push[f],
        after_push.last()@ == Set::<ColumnKey>::empty(),
        frames_gained(after_push, before_pop, s),
    ensures
        before_pop.last()@ == s,
        frames_gained(before_push, before_pop.drop_last(), s),
{
    let n = before_push.len() as int;
    assert(before_pop[n]@ == after_push[n]@.union(s));
    assert(Set::<ColumnKey>::empty().union(s) =~= s);
    assert forall|f: int| 0 <= f < n implies #[trigger] before_pop.drop_last()[f]@ == before_push[f]@.union(s) by {
        assert(before_pop[f]@ == after_push[f]@.union(s));
    }
}

/// Recording the columns `cols` one after another (`record_column`, taking
/// the accumulators from `stacks[k]` to `stacks[k + 1]` for the `k`-th
/// column) adds to every accumulator the columns of `cols` and nothing else.
pub proof fn law_records_gather(stacks: Seq<Seq<ColumnSet>>, cols: Seq<ColumnKey>)
    requires
        stacks.len() == cols.len() + 1,
        forall|k: int| 0 <= k < cols.len() ==> #[trigger] frames_gained(stacks[k], stacks[k + 1], set![cols[k]]),
    ensures
        frames_gained(stacks[0], stacks.last(), cols.to_set()),
    decreases cols.len(),
{
    if cols.len() == 0 {
        lemma_frames_gained_nothing(stacks[0]);
        assert(cols.to_set() =~= Set::<ColumnKey>::empty());
    } else {
        let n = cols.len() - 1;
        let st = stacks.drop_last();
        let cs = cols.drop_last();
        assert forall|k: int| 0 <= k < cs.len() implies #[trigger] frames_gained(st[k], st[k + 1], set![cs[k]]) by {
            assert(frames_gained(stacks[k], stacks[k + 1], set![cols[k]]));
        }
        law_records_gather(st, cs);
        assert(frames_gained(stacks[n], stacks[n + 1], set![cols[n]]));
        lemma_frames_gained_trans(stacks[0], stacks[n], stacks.last(), cs.to_set(), set![cols[n]]);
        assert forall|c: ColumnKey| #[trigger] cols.to_set().contains(c) <==> cs.to_set().union(set![cols[n]]).contains(c) by {
            if cols.contains(c) {
                let i = choose|i: int| 0 <= i < cols.len() && cols[i] == c;
                if i < n {
                    assert(cs[i] == c);
                }
            }
            if cs.contains(c) {
                let i = choose|i: int| 0 <= i < cs.len() && cs[i] == c;
                assert(cols[i] == c);
            }
        }
        assert(cols.to_set() =~= cs.to_set().union(set![cols[n]]));
    }
}

/// An accumulator pushed onto the stack `before` (`push_accumulator`), then
/// filled by recording the columns `cols` one after another
/// (`record_column`), collects exactly the columns of `cols` when it is
/// popped (`pop_accumulator`), and every accumulator below it has gained
/// them as well.
pub proof fn law_push_record_pop(before: Seq<ColumnSet>, stacks: Seq<Seq<ColumnSet>>, cols: Seq<ColumnKey>)
    requires
        stacks.len() == cols.len() + 1,
        stacks[0].len() == before.len() + 1,
        forall|f: int| 0 <= f < before.len() ==> #[trigger] stacks[0][f] == before[f],
        stacks[0].last()@ == Set::<ColumnKey>::empty(),
        forall|k: int| 0 <= k < cols.len() ==> #[trigger] frames_gained(stacks[k], stacks[k + 1], set![cols[k]]),
    ensures
        stacks.last().last()@ == cols.to_set(),
        frames_gained(before, stacks.last().drop_last(), cols.to_set()),
{
    law_records_gather(stacks, cols);
    law_accumulator_round_trip(before, stacks[0], stacks.last(), cols.to_set());
}

/// A composite expression is resolved as its operands are, in order: its
/// resolved form is the same operator over the operands' resolved forms, and
/// it fails with exactly the errors that its operands fail with.
pub proof fn law_composite_is_its_operands(
    scopes: Seq<ResolvedScope>,
    visible: Seq<usize>,
    e: Expr,
    r: Expr,
    err: ResolutionError,
)
    requires
        e is Composite,
    ensures
        expr_resolved(scopes, visible, e, r) <==> (r is Composite && r->Composite_op == e->Composite_op
            && exprs_resolved(scopes, visible, e->Composite_operands@, r->Composite_operands@)),
        expr_fails_with(scopes, visible, e, err) <==> exprs_fails_with(
            scopes,
            visible,
            e->Composite_operands@,
            err,
        ),
{
}

/// A list of expressions is resolved element by element, and fails with
/// exactly the errors that one of its elements fails with.
pub proof fn law_list_is_its_elements(
    scopes: Seq<ResolvedScope>,
    visible: Seq<usize>,
    es: Seq<Expr>,
    rs: Seq<Expr>,
    err: ResolutionError,
)
    ensures
        exprs_resolved(scopes, visible, es, rs) <==> (es.len() == rs.len() && forall|i: int|
            0 <= i < es.len() ==> #[trigger] expr_resolved(scopes, visible, es[i], rs[i])),
        exprs_fails_with(scopes, visible, es, err) <==> exists|i: int|
            0 <= i < es.len() && #[trigger] expr_fails_with(scopes, visible, es[i], err),
    decreases es.len(),
{
    if es.len() > 0 {
        law_list_is_its_elements(scopes, visible, es.drop_last(), rs.drop_last(), err);
        let n = es.len() - 1;
        if es.len() == rs.len() && forall|i: int|
            0 <= i < es.len() ==> #[trigger] expr_resolved(scopes, visible, es[i], rs[i]) {
            assert forall|i: int| 0 <= i < es.drop_last().len() implies #[trigger] expr_resolved(
                scopes,
                visible,
                es.drop_last()[i],
                rs.drop_last()[i],
            ) by {
                assert(expr_resolved(scopes, visible, es[i], rs[i]));
            }
            assert(expr_resolved(scopes, visible, es[n], rs[n]));
        }
        if exprs_resolved(scopes, visible, es, rs) {
            assert forall|i: int| 0 <= i < es.len() implies #[trigger] expr_resolved(scopes, visible, es[i], rs[i]) by {
                if i < n {
                    assert(expr_resolved(scopes, visible, es.drop_last()[i], rs.drop_last()[i]));
                }
            }
        }
        if exists|i: int| 0 <= i < es.len() && #[trigger] expr_fails_with(scopes, visible, es[i], err) {
            let i = choose|i: int| 0 <= i < es.len() && #[trigger] expr_fails_with(scopes, visible, es[i], err);
            if i < n {
                assert(expr_fails_with(scopes, visible, es.drop_last()[i], err));
            }
        }
        if exprs_fails_with(scopes, visible, es.drop_last(), err) {
            let i = choose|i: int|
                0 <= i < es.drop_last().len() && #[trigger] expr_fails_with(scopes, visible, es.drop_last()[i], err);
            assert(expr_fails_with(scopes, visible, es[i], err));
        }
        if expr_fails_with(scopes, visible, es.last(), err) {
            assert(expr_fails_with(scopes, visible, es[n], err));
        }
    } else {
        assert(exprs_resolved(scopes, visible, es, rs) <==> es.len() == rs.len());
    }
}

/// Recording the same column twice leaves the accumulators as recording it
/// once does.
pub proof fn law_record_twice_is_once(
    a: Seq<ColumnSet>,
    b: Seq<ColumnSet>,
    c: Seq<ColumnSet>,
    col: ColumnKey,
)
    requires
        frames_gained(a, b, set![col]),
        frames_gained(b, c, set![col]),
    ensures
        frames_gained(a, c, set![col]),
{
    lemma_frames_gained_trans(a, b, c, set![col], set![col]);
    assert(set![col].union(set![col]) =~= set![col]);
}

/// Opening a scope (`branch_scope`) and leaving it at once (`exit_scope`)
/// makes the scope that was active before active again, with the same chain
/// of visible scopes and the same accumulators; the scope that was opened
/// stays in the arena as the last child of the scope it was opened from.
pub proof fn law_branch_then_exit<'r, T: SchemaProvider>(
    before: &ResolutionContext<'r, T>,
    inside: &ResolutionContext<'r, T>,
    after: &ResolutionContext<'r, T>,
)
    requires
        before.wf(),
        inside.scopes@.len() == before.scopes@.len() + 1,
        inside.active_scope == before.scopes@.len(),
        inside.visible_scopes@ == before.visible_scopes@.push(before.scopes@.len() as usize),
        inside.accumulator_stack == before.accumulator_stack,
        inside.scopes@.last().parent == before.active_scope,
        inside.scopes@[before.active_scope as int].children@ == before.scopes@[before.active_scope as int].children@.push(
            before.scopes@.len() as usize,
        ),
        after.active_scope == inside.scopes@[inside.active_scope as int].parent,
        after.visible_scopes@ == inside.visible_scopes@.drop_last(),
        after.scopes == inside.scopes,
        after.accumulator_stack == inside.accumulator_stack,
    ensures
        after.active_scope == before.active_scope,
        after.visible_scopes@ == before.visible_scopes@,
        after.accumulator_stack == before.accumulator_stack,
        after.scopes@.len() == before.scopes@.len() + 1,
        after.scopes@.last().parent == after.active_scope,
        after.scopes@[after.active_scope as int].children@.last() == before.scopes@.len(),
{
    assert(inside.visible_scopes@.drop_last() =~= before.visible_scopes@);
}

/// The scope nearest to the reference that has a source providing the column
/// decides the lookup: when the active scope itself has one, the outer scopes
/// play no part.
pub proof fn law_innermost_scope_decides(
    scopes: Seq<ResolvedScope>,
    visible: Seq<usize>,
    q: Seq<Seq<char>>,
    col: Seq<char>,
)
    requires
        visible.len() >= 1,
        !(scope_lookup(scopes[visible.last() as int].sources.entries@, q, col) is NotFound),
    ensures
        column_lookup(scopes, visible, q, col) == scope_lookup(
            scopes[visible.last() as int].sources.entries@,
            q,
            col,
        ),
{
}

/// Two different sources of one scope that both provide the column make the
/// lookup in that scope ambiguous.
pub proof fn law_two_providers_are_ambiguous(
    entries: Seq<SourceEntry>,
    q: Seq<Seq<char>>,
    col: Seq<char>,
    i: int,
    j: int,
)
    requires
        0 <= i < entries.len(),
        0 <= j < entries.len(),
        i != j,
        provides(entries[i], q, col),
        provides(entries[j], q, col),
    ensures
        scope_lookup(entries, q, col) == ColumnLookup::Ambiguous,
{
    let k = choose|k: int| 0 <= k < entries.len() && #[trigger] provides(entries[k], q, col);
    if k == i {
        assert(provides(entries[j], q, col));
    } else {
        assert(provides(entries[i], q, col));
    }
}

/// A single source of a scope that provides the column is the one the lookup
/// in that scope finds.
pub proof fn law_single_provider_is_found(
    entries: Seq<SourceEntry>,
    q: Seq<Seq<char>>,
    col: Seq<char>,
    i: int,
)
    requires
        0 <= i < entries.len(),
        provides(entries[i], q, col),
        forall|j: int| 0 <= j < entries.len() && j != i ==> !#[trigger] provides(entries[j], q, col),
    ensures
        scope_lookup(entries, q, col) == ColumnLookup::Found(entries[i].name@),
{
    assert(provides(entries[i], q, col));
}

/// Correlation reaches through any depth of nesting: a lookup starting in
/// the active scope passes through every enclosing scope that allows outer
/// references and has no match of its own, and is decided as if it had
/// started in the first scope that does not pass it on.
pub proof fn law_lookup_passes_through_lateral_scopes(
    scopes: Seq<ResolvedScope>,
    visible: Seq<usize>,
    k: int,
    q: Seq<Seq<char>>,
    col: Seq<char>,
)
    requires
        -1 <= k < visible.len(),
        forall|j: int|
            k < j < visible.len() ==> (#[trigger] scopes[visible[j] as int]).allow_lateral
                && scope_lookup(scopes[visible[j] as int].sources.entries@, q, col) is NotFound,
    ensures
        column_lookup(scopes, visible, q, col) == lookup_from(scopes, visible, k, q, col),
    decreases visible.len() - k,
{
    if k + 1 < visible.len() {
        law_lookup_passes_through_lateral_scopes(scopes, visible, k + 1, q, col);
        let s = scopes[visible[k + 1] as int];
        assert(s.allow_lateral);
        assert(lookup_from(scopes, visible, k + 1, q, col) == lookup_from(scopes, visible, k, q, col));
    }
}

/// A scope that does not allow outer references hides every enclosing
/// scope: a reference that none of its own sources provides is not found,
/// whatever the outer scopes hold.
pub proof fn law_closed_scope_hides_outer_scopes(
    scopes: Seq<ResolvedScope>,
    visible: Seq<usize>,
    q: Seq<Seq<char>>,
    col: Seq<char>,
)
    requires
        visible.len() >= 1,
        !scopes[visible.last() as int].allow_lateral,
        scope_lookup(scopes[visible.last() as int].sources.entries@, q, col) is NotFound,
    ensures
        column_lookup(scopes, visible, q, col) == ColumnLookup::NotFound,
{
}

/// An unaliased named table, or table function, is registered under the
/// last part of its name, however many parts it has: `a.b` is registered as
/// `b`, and the one-part qualifier `b` names that source. An aliased one is
/// registered under its alias.
pub proof fn law_unaliased_table_takes_the_last_name_part(f: TableFactor, e: SourceEntry)
    requires
        e.name@ == factor_key(f),
    ensures
        f matches TableFactor::Table { name, alias } ==> (alias matches Some(a) ==> e.name@ == a@) && (alias is None
            && name@.len() > 0 ==> e.name@ == name@[name@.len() - 1]@ && qualifier_names(
            seq![name@[name@.len() - 1]@],
            e,
        )),
        f matches TableFactor::Function { name, alias, .. } ==> (alias matches Some(a) ==> e.name@ == a@) && (
        alias is None && name@.len() > 0 ==> e.name@ == name@[name@.len() - 1]@),
{
}

/// The output columns of a set operation, as `adopt_outputs` leaves them
/// after the columns the scope already had: as many as the left branch has,
/// column `k` named as the left branch's column `k` and depending exactly on
/// what that column depends on together with what the right branch's column
/// at the same position depends on.
pub proof fn law_set_operation_columns_pair_by_position(
    o: ResolvedScope,
    n: ResolvedScope,
    first: ResolvedScope,
    second: ResolvedScope,
)
    requires
        selected_views(n) == selected_views(o) + adopted_views(first, second),
    ensures
        n.selected_columns@.len() == o.selected_columns@.len() + first.selected_columns@.len(),
        forall|k: int|
            0 <= k < first.selected_columns@.len() ==> #[trigger] n.selected_columns@[o.selected_columns@.len()
                + k].name@ == first.selected_columns@[k].name@,
        forall|k: int|
            0 <= k < first.selected_columns@.len() && k < second.selected_columns@.len() ==> #[trigger] n.selected_columns@[
            o.selected_columns@.len() + k].dependencies@ == first.selected_columns@[k].dependencies@.union(
                second.selected_columns@[k].dependencies@,
            ),
        forall|k: int|
            0 <= k < first.selected_columns@.len() && k >= second.selected_columns@.len() ==> #[trigger] n.selected_columns@[
            o.selected_columns@.len() + k].dependencies@ == first.selected_columns@[k].dependencies@,
{
    let m = o.selected_columns@.len() as int;
    assert(selected_views(n).len() == n.selected_columns@.len());
    assert forall|k: int| 0 <= k < first.selected_columns@.len() implies #[trigger] n.selected_columns@[m + k].name@
        == first.selected_columns@[k].name@ && n.selected_columns@[m + k].dependencies@
        == first.selected_columns@[k].dependencies@.union(
        if k < second.selected_columns@.len() {
            second.selected_columns@[k].dependencies@
        } else {
            Set::empty()
        },
    ) by {
        assert(selected_views(n)[m + k] == adopted_views(first, second)[k]);
    }
    assert forall|k: int|
        0 <= k < first.selected_columns@.len() && k < second.selected_columns@.len() implies #[trigger] n.selected_columns@[
        m + k].dependencies@ == first.selected_columns@[k].dependencies@.union(
        second.selected_columns@[k].dependencies@,
    ) by {
        assert(n.selected_columns@[m + k].name@ == first.selected_columns@[k].name@);
    }
    assert forall|k: int|
        0 <= k < first.selected_columns@.len() && k >= second.selected_columns@.len() implies #[trigger] n.selected_columns@[
        m + k].dependencies@ == first.selected_columns@[k].dependencies@ by {
        assert(n.selected_columns@[m + k].name@ == first.selected_columns@[k].name@);
        assert(first.selected_columns@[k].dependencies@.union(Set::empty()) =~= first.selected_columns@[k].dependencies@);
    }
}

/// An unqualified `*` takes every column of every source, in the order the
/// sources were registered, whatever their kind (table, CTE, derived table,
/// table function): each source adds exactly its columns, each under its own
/// name and depending on that column of that source. A qualifier naming a
/// source by its name takes that source's columns as well.
pub proof fn law_star_takes_every_source(entries: Seq<SourceEntry>, e: SourceEntry)
    ensures
        wildcard_columns(Seq::<SourceEntry>::empty(), Seq::empty()) == Seq::<(Seq<char>, Set<ColumnKey>)>::empty(),
        wildcard_columns(entries.push(e), Seq::empty()) == wildcard_columns(entries, Seq::empty())
            + e.source.spec_columns().map_values(|c: String| (c@, set![(c@, e.name@)])),
        wildcard_columns(entries.push(e), seq![e.name@]) == wildcard_columns(entries, seq![e.name@])
            + e.source.spec_columns().map_values(|c: String| (c@, set![(c@, e.name@)])),
        wildcard_columns(entries.push(e), Seq::empty()).len() == wildcard_columns(entries, Seq::empty()).len()
            + e.source.spec_columns().len(),
{
    assert(entries.push(e).drop_last() =~= entries);
}

/// Resolving a SELECT block (`select_applied`, what `resolve_select`
/// ensures) tags by role: the group-by columns gain exactly the references
/// of its GROUP BY list, however many expressions it has; the filter columns
/// exactly those of its WHERE and HAVING; the join columns those of its
/// `ON` conditions; the sort columns nothing.
pub proof fn law_select_tags_each_clause(o: ResolvedScope, n: ResolvedScope, s: Select)
    requires
        select_applied(o, n, s),
    ensures
        n.group_by_columns@ == o.group_by_columns@.union(exprs_refs(s.group_by@)),
        n.filter_columns@ == o.filter_columns@.union(opt_expr_refs(s.selection)).union(opt_expr_refs(s.having)),
        n.join_columns@ == o.join_columns@.union(from_on_refs(s.from@)),
        n.sort_columns@ == o.sort_columns@,
        exprs_refs(s.group_by@).subset_of(n.group_by_columns@),
{
}

/// The scope of a query with a SELECT body (`query_scope`, what resolving a
/// query leaves in its own scope) holds as group-by columns exactly the
/// references of its GROUP BY list, as filter columns exactly those of its
/// WHERE and HAVING, as join columns those of its `ON` conditions, and as sort
/// columns those of its ORDER BY list.
pub proof fn law_query_scope_tags_each_clause(n: ResolvedScope, q: Query, s: Select)
    requires
        query_scope(n, q),
        *q.body == SetExpr::Select(Box::new(s)),
    ensures
        n.group_by_columns@ == exprs_refs(s.group_by@),
        n.filter_columns@ == opt_expr_refs(s.selection).union(opt_expr_refs(s.having)),
        n.join_columns@ == from_on_refs(s.from@),
        n.sort_columns@ == exprs_refs(q.order_by@),
{
}

/// A one-part qualifier names every source registered under that name,
/// whatever its kind (table, CTE, derived table, table function): a column
/// of that source that it qualifies is found there, and found ambiguous when
/// another source of that name provides it too.
pub proof fn law_one_part_qualifier_names_any_source(e: SourceEntry, f: SourceEntry, col: Seq<char>)
    ensures
        qualifier_names(seq![e.name@], e),
        has_column(e.source.spec_columns(), col) ==> provides(e, seq![e.name@], col),
        has_column(e.source.spec_columns(), col) ==> scope_lookup(seq![e], seq![e.name@], col)
            == ColumnLookup::Found(e.name@),
        has_column(e.source.spec_columns(), col) && has_column(f.source.spec_columns(), col) && f.name@
            == e.name@ ==> scope_lookup(seq![e, f], seq![e.name@], col) == ColumnLookup::Ambiguous,
{
    if has_column(e.source.spec_columns(), col) {
        assert(provides(seq![e][0], seq![e.name@], col));
        if has_column(f.source.spec_columns(), col) && f.name@ == e.name@ {
            let es = seq![e, f];
            assert(provides(es[0], seq![e.name@], col));
            assert(provides(es[1], seq![e.name@], col));
        }
    }
}

} // verus!
