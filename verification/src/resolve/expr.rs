//! The expression walker.
use vstd::prelude::*;

use crate::ast::Expr;
use crate::resolve::column::strings_view;
use crate::resolve::errors::ResolutionError;
use crate::resolve::rewrite::{expr_rewritten, exprs_rewritten, lemma_exprs_rewritten_push};
use crate::resolve::failures::{expr_can_fail, exprs_can_fail, lemma_exprs_can_fail_at};
use crate::resolve::refs::{
    compound_key, expr_refs, expr_resolved, exprs_refs, exprs_resolved, lemma_exprs_resolved_stable, subquery_scope, query_body_resolved,
    expr_fails_with, expr_lookups_found, expr_plain, exprs_fails_with, exprs_lookups_found, exprs_plain,
    lemma_expr_fails_with_stable, lemma_exprs_fails_with_at, lemma_exprs_found_prefix,
    lemma_exprs_found_push, lemma_exprs_plain_at, lemma_bindings_kept_lookups, lemma_expr_resolved_stable, lemma_exprs_refs_push, lemma_exprs_resolved_push,
};
use crate::resolve::scope::{ColumnKey, ColumnSet, ResolvedScope, ScopeType};
use crate::resolve::{
    frames_gained, lemma_continues_refl, lemma_continues_trans, lemma_frames_gained_nothing,
    lemma_frames_gained_trans, ResolutionContext,
};
use crate::schema::SchemaProvider;

verus! {

/// `q` is the qualified form of expression `e` as resolution from the
/// active scope of `scopes` along `visible` computes it, and the accumulators
/// went from `before` to `after` by gaining exactly its references.
pub open spec fn expr_qualified(
    scopes: Seq<ResolvedScope>,
    visible: Seq<usize>,
    before: Seq<ColumnSet>,
    after: Seq<ColumnSet>,
    e: Expr,
    q: Expr,
) -> bool {
    &&& expr_rewritten(e, q)
    &&& expr_resolved(scopes, visible, e, q)
    &&& frames_gained(before, after, expr_refs(q))
}

/// `qs` is the qualified form of the expressions `es`, as `expr_qualified`
/// says of one.
pub open spec fn exprs_qualified(
    scopes: Seq<ResolvedScope>,
    visible: Seq<usize>,
    before: Seq<ColumnSet>,
    after: Seq<ColumnSet>,
    es: Seq<Expr>,
    qs: Seq<Expr>,
) -> bool {
    &&& exprs_rewritten(es, qs)
    &&& exprs_resolved(scopes, visible, es, qs)
    &&& frames_gained(before, after, exprs_refs(qs))
}

impl<'r, T: SchemaProvider> ResolutionContext<'r, T> {
    /// Resolves an expression in the active scope and leaves it as it is:
    /// every column reference is looked up from the active scope outward,
    /// every nested subquery is resolved in a subquery scope of its own,
    /// opened under the active scope and letting lookups through to it, and
    /// every resolved reference, at any depth, is recorded into every open
    /// accumulator. What the resolution found is the qualified form of the
    /// expression (`expr_qualified`), each reference qualified by the source
    /// its lookup found. The left operand of `IN (subquery)` is resolved
    /// first; when it fails, no scope is opened, and on success the
    /// subquery's scope is one of those opened by this call.
    pub fn resolve_expr(&mut self, expr: &mut Expr) -> (r: Result<(), ResolutionError>)
        requires
            old(self).wf(),
        ensures
            *final(expr) == *old(expr),
            r matches Err(err) ==> expr_can_fail(*old(expr), err),
            r matches Err(err) ==> expr_fails_with(
                final(self).scopes@,
                old(self).visible_scopes@,
                *old(expr),
                err,
            ),
            expr_plain(*old(expr)) ==> (r is Ok <==> expr_lookups_found(
                old(self).scopes@,
                old(self).visible_scopes@,
                *old(expr),
            )),
            expr_plain(*old(expr)) ==> final(self).scopes == old(self).scopes,
            (*old(expr) is Subquery || *old(expr) is Exists) ==> ({
                let n = old(self).scopes@.len() as int;
                &&& final(self).scopes@.len() > n
                &&& final(self).scopes@[n].parent == old(self).active_scope
                &&& final(self).scopes@[n].scope_type == ScopeType::Subquery
                &&& final(self).scopes@[n].allow_lateral
            }),
            *old(expr) matches Expr::InSubquery { expr: left, .. } ==> (expr_plain(*left)
                && !expr_lookups_found(old(self).scopes@, old(self).visible_scopes@, *left) ==> r is Err
                && final(self).scopes == old(self).scopes),
            *old(expr) matches Expr::InSubquery { expr: left, .. } ==> (expr_plain(*left)
                && expr_lookups_found(old(self).scopes@, old(self).visible_scopes@, *left) ==> ({
                let n = old(self).scopes@.len() as int;
                &&& final(self).scopes@.len() > n
                &&& final(self).scopes@[n].parent == old(self).active_scope
                &&& final(self).scopes@[n].scope_type == ScopeType::Subquery
                &&& final(self).scopes@[n].allow_lateral
            })),
            (*old(expr) is InSubquery && r is Ok) ==> exists|m: usize|
                old(self).scopes@.len() <= m && #[trigger] subquery_scope(
                    final(self).scopes@,
                    old(self).visible_scopes@,
                    m,
                ),
            final(self).wf(),
            final(self).continues(old(self)),
            !(r matches Err(ResolutionError::UnsupportedQueryType(_))),
            r is Ok ==> exists|q: Expr|
                #[trigger] expr_qualified(
                    final(self).scopes@,
                    old(self).visible_scopes@,
                    old(self).accumulator_stack@,
                    final(self).accumulator_stack@,
                    *old(expr),
                    q,
                ),
    {
        let ghost s0 = *self;
        let q = self.qualify_expr(&*expr)?;
        assert(expr_qualified(
            self.scopes@,
            s0.visible_scopes@,
            s0.accumulator_stack@,
            self.accumulator_stack@,
            *expr,
            q,
        ));
        Ok(())
    }

    /// Resolves each expression of a list in turn, leaving the list as it is;
    /// the first that fails ends the resolution.
    pub fn resolve_expr_slice(&mut self, exprs: &mut Vec<Expr>) -> (r: Result<(), ResolutionError>)
        requires
            old(self).wf(),
        ensures
            *final(exprs) == *old(exprs),
            r matches Err(err) ==> exprs_can_fail(old(exprs)@, err),
            r matches Err(err) ==> exprs_fails_with(
                final(self).scopes@,
                old(self).visible_scopes@,
                old(exprs)@,
                err,
            ),
            r matches Err(err) ==> exists|i: int, qs: Seq<Expr>|
                0 <= i < old(exprs)@.len() && #[trigger] exprs_resolved(
                    final(self).scopes@,
                    old(self).visible_scopes@,
                    old(exprs)@.take(i),
                    qs,
                ) && expr_fails_with(final(self).scopes@, old(self).visible_scopes@, old(exprs)@[i], err),
            exprs_plain(old(exprs)@) ==> (r is Ok <==> exprs_lookups_found(
                old(self).scopes@,
                old(self).visible_scopes@,
                old(exprs)@,
            )),
            exprs_plain(old(exprs)@) ==> final(self).scopes == old(self).scopes,
            exprs_plain(old(exprs)@) ==> (r matches Err(err) ==> exists|i: int|
                0 <= i < old(exprs)@.len() && exprs_lookups_found(
                    old(self).scopes@,
                    old(self).visible_scopes@,
                    old(exprs)@.take(i),
                ) && #[trigger] expr_fails_with(
                    old(self).scopes@,
                    old(self).visible_scopes@,
                    old(exprs)@[i],
                    err,
                )),
            final(self).wf(),
            final(self).continues(old(self)),
            !(r matches Err(ResolutionError::UnsupportedQueryType(_))),
            r is Ok ==> exists|qs: Seq<Expr>|
                #[trigger] exprs_qualified(
                    final(self).scopes@,
                    old(self).visible_scopes@,
                    old(self).accumulator_stack@,
                    final(self).accumulator_stack@,
                    old(exprs)@,
                    qs,
                ),
    {
        let ghost s0 = *self;
        let qs = self.qualify_exprs(&*exprs)?;
        assert(exprs_qualified(
            self.scopes@,
            s0.visible_scopes@,
            s0.accumulator_stack@,
            self.accumulator_stack@,
            exprs@,
            qs@,
        ));
        Ok(())
    }

    /// The qualified form of an expression, resolved in the active scope:
    /// every column reference replaced by its resolution (qualified by the
    /// source that provides it), every nested subquery resolved in a scope of
    /// its own, and every resolved reference recorded into every open
    /// accumulator.
    pub fn qualify_expr(&mut self, expr: &Expr) -> (r: Result<Expr, ResolutionError>)
        requires
            old(self).wf(),
        ensures
            r matches Ok(q) ==> expr_rewritten(*expr, q),
            r matches Err(err) ==> expr_can_fail(*expr, err),
            r matches Err(err) ==> expr_fails_with(final(self).scopes@, old(self).visible_scopes@, *expr, err),
            expr_plain(*expr) ==> (r is Ok <==> expr_lookups_found(
                old(self).scopes@,
                old(self).visible_scopes@,
                *expr,
            )),
            expr_plain(*expr) ==> final(self).scopes == old(self).scopes,
            (*expr is Subquery || *expr is Exists) ==> ({
                let n = old(self).scopes@.len() as int;
                &&& final(self).scopes@.len() > n
                &&& final(self).scopes@[n].parent == old(self).active_scope
                &&& final(self).scopes@[n].scope_type == ScopeType::Subquery
                &&& final(self).scopes@[n].allow_lateral
            }),
            *expr matches Expr::InSubquery { expr: left, .. } ==> (expr_plain(*left) && !expr_lookups_found(
                old(self).scopes@,
                old(self).visible_scopes@,
                *left,
            ) ==> r is Err && final(self).scopes == old(self).scopes),
            *expr matches Expr::InSubquery { expr: left, .. } ==> (expr_plain(*left) && expr_lookups_found(
                old(self).scopes@,
                old(self).visible_scopes@,
                *left,
            ) ==> ({
                let n = old(self).scopes@.len() as int;
                &&& final(self).scopes@.len() > n
                &&& final(self).scopes@[n].parent == old(self).active_scope
                &&& final(self).scopes@[n].scope_type == ScopeType::Subquery
                &&& final(self).scopes@[n].allow_lateral
            })),
            *expr matches Expr::InSubquery { subquery, .. } ==> (r matches Ok(Expr::InSubquery {
                subquery: rs,
                ..
            }) ==> exists|m: usize|
                old(self).scopes@.len() <= m && #[trigger] subquery_scope(
                    final(self).scopes@,
                    old(self).visible_scopes@,
                    m,
                ) && query_body_resolved(final(self).scopes@, old(self).visible_scopes@.push(m), *subquery, *rs)),
            final(self).wf(),
            final(self).continues(old(self)),
            !(r matches Err(ResolutionError::UnsupportedQueryType(_))),
            r matches Ok(q) ==> expr_resolved(
                final(self).scopes@,
                old(self).visible_scopes@,
                *expr,
                q,
            ),
            r matches Ok(q) ==> frames_gained(
                old(self).accumulator_stack@,
                final(self).accumulator_stack@,
                expr_refs(q),
            ),
        decreases expr, 0nat,
    {
        let ghost s0 = *self;
        match expr {
            Expr::Subquery(query) => {
                let r = self.resolve_query(&**query, ScopeType::Subquery, true);
                proof {
                    assert(subquery_scope(self.scopes@, s0.visible_scopes@, s0.scopes.len()));
                }
                let q = r?;
                proof {
                    assert(subquery_scope(self.scopes@, s0.visible_scopes@, s0.scopes.len()));
                }
                Ok(Expr::Subquery(Box::new(q)))
            },
            Expr::InSubquery { expr: inner, subquery } => {
                let e = self.qualify_expr(&**inner)?;
                let ghost s1 = *self;
                let r = self.resolve_query(&**subquery, ScopeType::Subquery, true);
                proof {
                    lemma_continues_trans(&s0, &s1, self);
                    assert(subquery_scope(self.scopes@, s0.visible_scopes@, s1.scopes.len()));
                }
                let q = r?;
                proof {
                    assert(subquery_scope(self.scopes@, s0.visible_scopes@, s1.scopes.len()));
                    lemma_bindings_kept_lookups(s1.scopes@, self.scopes@);
                    lemma_expr_resolved_stable(s1.scopes@, self.scopes@, s0.visible_scopes@, **inner, e);
                    lemma_frames_gained_trans(
                        s0.accumulator_stack@,
                        s1.accumulator_stack@,
                        self.accumulator_stack@,
                        expr_refs(e),
                        crate::resolve::refs::query_refs(q),
                    );
                }
                Ok(Expr::InSubquery { expr: Box::new(e), subquery: Box::new(q) })
            },
            Expr::Exists(query) => {
                let r = self.resolve_query(&**query, ScopeType::Subquery, true);
                proof {
                    assert(subquery_scope(self.scopes@, s0.visible_scopes@, s0.scopes.len()));
                }
                let q = r?;
                proof {
                    assert(subquery_scope(self.scopes@, s0.visible_scopes@, s0.scopes.len()));
                }
                Ok(Expr::Exists(Box::new(q)))
            },
            Expr::Function(func) => {
                let f = self.resolve_function(func)?;
                Ok(Expr::Function(f))
            },
            Expr::Composite { op, operands } => {
                let qs = self.qualify_exprs(operands)?;
                Ok(Expr::Composite { op: op.clone(), operands: qs })
            },
            Expr::Identifier(ident) => {
                let no_qualifier: Vec<String> = Vec::new();
                assert(strings_view(no_qualifier@) =~= Seq::<Seq<char>>::empty());
                let c = self.resolve_col(ident, &no_qualifier)?;
                let ghost key = c@;
                let mut qualifier: Vec<String> = Vec::new();
                qualifier.push(c.source_name);
                assert(strings_view(qualifier@) =~= seq![key.1]);
                assert(compound_key(qualifier@, c.name) == key);
                assert(set![compound_key(qualifier@, c.name)] =~= set![key]);
                let out = Expr::CompoundIdentifier { qualifier, name: c.name };
                proof {
                    lemma_bindings_kept_lookups(s0.scopes@, self.scopes@);
                    lemma_expr_resolved_stable(s0.scopes@, self.scopes@, s0.visible_scopes@, *expr, out);
                }
                Ok(out)
            },
            Expr::CompoundIdentifier { qualifier, name } => {
                let c = self.resolve_col(name, qualifier)?;
                let ghost key = c@;
                let mut resolved: Vec<String> = Vec::new();
                resolved.push(c.source_name);
                assert(strings_view(resolved@) =~= seq![key.1]);
                assert(compound_key(resolved@, c.name) == key);
                assert(set![compound_key(resolved@, c.name)] =~= set![key]);
                let out = Expr::CompoundIdentifier { qualifier: resolved, name: c.name };
                proof {
                    lemma_bindings_kept_lookups(s0.scopes@, self.scopes@);
                    lemma_expr_resolved_stable(s0.scopes@, self.scopes@, s0.visible_scopes@, *expr, out);
                }
                Ok(out)
            },
            Expr::Value(v) => {
                proof {
                    lemma_continues_refl(self);
                    lemma_frames_gained_nothing(self.accumulator_stack@);
                }
                Ok(Expr::Value(v.clone()))
            },
        }
    }

    /// The qualified forms of a list of expressions, resolved in turn; the
    /// first that fails ends the resolution.
    pub fn qualify_exprs(&mut self, exprs: &Vec<Expr>) -> (r: Result<Vec<Expr>, ResolutionError>)
        requires
            old(self).wf(),
        ensures
            r matches Ok(qs) ==> exprs_rewritten(exprs@, qs@),
            r matches Err(err) ==> exprs_can_fail(exprs@, err),
            r matches Err(err) ==> exprs_fails_with(final(self).scopes@, old(self).visible_scopes@, exprs@, err),
            r matches Err(err) ==> exists|i: int, qs: Seq<Expr>|
                0 <= i < exprs@.len() && #[trigger] exprs_resolved(
                    final(self).scopes@,
                    old(self).visible_scopes@,
                    exprs@.take(i),
                    qs,
                ) && expr_fails_with(final(self).scopes@, old(self).visible_scopes@, exprs@[i], err),
            exprs_plain(exprs@) ==> (r is Ok <==> exprs_lookups_found(
                old(self).scopes@,
                old(self).visible_scopes@,
                exprs@,
            )),
            exprs_plain(exprs@) ==> final(self).scopes == old(self).scopes,
            exprs_plain(exprs@) ==> (r matches Err(err) ==> exists|i: int|
                0 <= i < exprs@.len() && exprs_lookups_found(
                    old(self).scopes@,
                    old(self).visible_scopes@,
                    exprs@.take(i),
                ) && #[trigger] expr_fails_with(
                    old(self).scopes@,
                    old(self).visible_scopes@,
                    exprs@[i],
                    err,
                )),
            final(self).wf(),
            final(self).continues(old(self)),
            !(r matches Err(ResolutionError::UnsupportedQueryType(_))),
            r matches Ok(qs) ==> exprs_resolved(
                final(self).scopes@,
                old(self).visible_scopes@,
                exprs@,
                qs@,
            ),
            r matches Ok(qs) ==> frames_gained(
                old(self).accumulator_stack@,
                final(self).accumulator_stack@,
                exprs_refs(qs@),
            ),
        decreases exprs, 0nat,
    {
        let ghost s0 = *self;
        let ghost e0 = exprs@;
        let n = exprs.len();
        let mut out: Vec<Expr> = Vec::new();
        proof {
            lemma_continues_refl(self);
            lemma_frames_gained_nothing(self.accumulator_stack@);
            assert(e0.take(0) =~= Seq::<Expr>::empty());
            assert(out@ =~= Seq::<Expr>::empty());
        }
        let mut i: usize = 0;
        while i < n
            invariant
                0 <= i <= n,
                n == e0.len(),
                e0 == exprs@,
                s0 == *old(self),
                s0.wf(),
                out@.len() == i,
                self.wf(),
                self.continues(&s0),
                exprs_resolved(self.scopes@, s0.visible_scopes@, e0.take(i as int), out@),
                exprs_rewritten(e0.take(i as int), out@),
                frames_gained(s0.accumulator_stack@, self.accumulator_stack@, exprs_refs(out@)),
                exprs_plain(e0) ==> self.scopes == s0.scopes,
                exprs_plain(e0) ==> exprs_lookups_found(s0.scopes@, s0.visible_scopes@, e0.take(i as int)),
            decreases n - i,
        {
            let ghost s1 = *self;
            let ghost before = out@;
            proof {
                assert(decreases_to!(*exprs => exprs@[i as int]));
            }
            let r = self.qualify_expr(&exprs[i]);
            proof {
                lemma_continues_trans(&s0, &s1, self);
            }
            proof {
                lemma_bindings_kept_lookups(s0.scopes@, s1.scopes@);
                lemma_expr_fails_with_stable(s0.scopes@, s1.scopes@, s0.visible_scopes@, e0[i as int], arbitrary());
                if exprs_plain(e0) {
                    lemma_exprs_plain_at(e0, i as int);
                }
            }
            let q = match r {
                Err(e) => {
                    proof {
                        lemma_exprs_can_fail_at(e0, i as int, e);
                        lemma_exprs_fails_with_at(self.scopes@, s0.visible_scopes@, e0, i as int, e);
                        lemma_bindings_kept_lookups(s1.scopes@, self.scopes@);
                        lemma_exprs_resolved_stable(s1.scopes@, self.scopes@, s0.visible_scopes@, e0.take(i as int), before);
                        assert(exprs_resolved(self.scopes@, s0.visible_scopes@, e0.take(i as int), before));
                        if exprs_plain(e0) {
                            assert(expr_fails_with(s0.scopes@, s0.visible_scopes@, e0[i as int], e));
                        }
                        if exprs_plain(e0) && exprs_lookups_found(s0.scopes@, s0.visible_scopes@, e0) {
                            lemma_exprs_found_prefix(s0.scopes@, s0.visible_scopes@, e0, i + 1);
                            assert(e0.take(i + 1).last() == e0[i as int]);
                        }
                    }
                    return Err(e);
                },
                Ok(q) => q,
            };
            out.push(q);
            proof {
                assert(out@.take(i as int) =~= before);
                assert(out@.take(i + 1) =~= out@);
                lemma_bindings_kept_lookups(s1.scopes@, self.scopes@);
                lemma_exprs_resolved_stable(s1.scopes@, self.scopes@, s0.visible_scopes@, e0.take(i as int), before);
                lemma_exprs_resolved_push(self.scopes@, s0.visible_scopes@, e0, out@, i as int);
                lemma_exprs_refs_push(out@, i as int);
                lemma_exprs_rewritten_push(e0, out@, i as int);
                if exprs_plain(e0) {
                    lemma_exprs_found_push(s0.scopes@, s0.visible_scopes@, e0, i as int);
                }
                lemma_frames_gained_trans(
                    s0.accumulator_stack@,
                    s1.accumulator_stack@,
                    self.accumulator_stack@,
                    exprs_refs(before),
                    expr_refs(q),
                );
            }
            i = i + 1;
        }
        proof {
            assert(e0.take(n as int) =~= e0);
        }
        Ok(out)
    }

    /// Resolves an expression under a fresh accumulator and hands back its
    /// qualified form with the column references it collected.
    pub fn resolve_collecting(&mut self, expr: &Expr) -> (r: Result<(Expr, ColumnSet), ResolutionError>)
        requires
            old(self).wf(),
        ensures
            r matches Ok((q, _)) ==> expr_rewritten(*expr, q),
            r matches Err(err) ==> expr_can_fail(*expr, err),
            r matches Err(err) ==> expr_fails_with(final(self).scopes@, old(self).visible_scopes@, *expr, err),
            expr_plain(*expr) ==> (r is Ok <==> expr_lookups_found(
                old(self).scopes@,
                old(self).visible_scopes@,
                *expr,
            )),
            expr_plain(*expr) ==> final(self).scopes == old(self).scopes,
            final(self).wf(),
            final(self).continues(old(self)),
            !(r matches Err(ResolutionError::UnsupportedQueryType(_))),
            r matches Ok((q, s)) ==> s@ == expr_refs(q),
            r matches Ok((q, _)) ==> expr_resolved(
                final(self).scopes@,
                old(self).visible_scopes@,
                *expr,
                q,
            ),
            r matches Ok((q, _)) ==> frames_gained(
                old(self).accumulator_stack@,
                final(self).accumulator_stack@,
                expr_refs(q),
            ),
        decreases expr, 1nat,
    {
        let ghost s0 = *self;
        self.push_accumulator();
        let ghost s1 = *self;
        let r = self.qualify_expr(expr);
        let ghost s2 = *self;
        let collected = self.pop_accumulator();
        proof {
            let n = s0.accumulator_stack@.len();
            assert forall|f: int| 0 <= f < n implies (#[trigger] s0.accumulator_stack@[f]@).subset_of(
                self.accumulator_stack@[f]@,
            ) by {
                assert(s1.accumulator_stack@[f] == s0.accumulator_stack@[f]);
                assert(s1.accumulator_stack@[f]@.subset_of(s2.accumulator_stack@[f]@));
            }
        }
        match r {
            Err(e) => Err(e),
            Ok(q) => {
                proof {
                    let n = s0.accumulator_stack@.len();
                    let refs = expr_refs(q);
                    assert(s2.accumulator_stack@[n as int]@ == s1.accumulator_stack@[n as int]@.union(refs));
                    assert(collected@ =~= refs);
                    assert forall|f: int| 0 <= f < n implies #[trigger] self.accumulator_stack@[f]@
                        == s0.accumulator_stack@[f]@.union(refs) by {
                        assert(s1.accumulator_stack@[f] == s0.accumulator_stack@[f]);
                    }
                }
                Ok((q, collected))
            },
        }
    }

    /// Resolves a list of expressions under a fresh accumulator and hands
    /// back their qualified forms with the column references it collected.
    pub fn resolve_collecting_slice(&mut self, exprs: &Vec<Expr>) -> (r: Result<
        (Vec<Expr>, ColumnSet),
        ResolutionError,
    >)
        requires
            old(self).wf(),
        ensures
            r matches Ok((qs, _)) ==> exprs_rewritten(exprs@, qs@),
            r matches Err(err) ==> exprs_can_fail(exprs@, err),
            r matches Err(err) ==> exprs_fails_with(final(self).scopes@, old(self).visible_scopes@, exprs@, err),
            exprs_plain(exprs@) ==> (r is Ok <==> exprs_lookups_found(
                old(self).scopes@,
                old(self).visible_scopes@,
                exprs@,
            )),
            exprs_plain(exprs@) ==> final(self).scopes == old(self).scopes,
            final(self).wf(),
            final(self).continues(old(self)),
            !(r matches Err(ResolutionError::UnsupportedQueryType(_))),
            r matches Ok((qs, s)) ==> s@ == exprs_refs(qs@),
            r matches Ok((qs, _)) ==> exprs_resolved(
                final(self).scopes@,
                old(self).visible_scopes@,
                exprs@,
                qs@,
            ),
            r matches Ok((qs, _)) ==> frames_gained(
                old(self).accumulator_stack@,
                final(self).accumulator_stack@,
                exprs_refs(qs@),
            ),
        decreases exprs, 1nat,
    {
        let ghost s0 = *self;
        self.push_accumulator();
        let ghost s1 = *self;
        let r = self.qualify_exprs(exprs);
        let ghost s2 = *self;
        let collected = self.pop_accumulator();
        proof {
            let n = s0.accumulator_stack@.len();
            assert forall|f: int| 0 <= f < n implies (#[trigger] s0.accumulator_stack@[f]@).subset_of(
                self.accumulator_stack@[f]@,
            ) by {
                assert(s1.accumulator_stack@[f] == s0.accumulator_stack@[f]);
                assert(s1.accumulator_stack@[f]@.subset_of(s2.accumulator_stack@[f]@));
            }
        }
        match r {
            Err(e) => Err(e),
            Ok(qs) => {
                proof {
                    let n = s0.accumulator_stack@.len();
                    let refs = exprs_refs(qs@);
                    assert(s2.accumulator_stack@[n as int]@ == s1.accumulator_stack@[n as int]@.union(refs));
                    assert(collected@ =~= refs);
                    assert forall|f: int| 0 <= f < n implies #[trigger] self.accumulator_stack@[f]@
                        == s0.accumulator_stack@[f]@.union(refs) by {
                        assert(s1.accumulator_stack@[f] == s0.accumulator_stack@[f]);
                    }
                }
                Ok((qs, collected))
            },
        }
    }
}

} // verus!
