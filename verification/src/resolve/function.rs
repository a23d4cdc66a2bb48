//! Function calls and their window specifications.
use vstd::prelude::*;

use crate::ast::Function;
use crate::resolve::column::strings_view;
use crate::resolve::from::copy_names;
use crate::resolve::errors::ResolutionError;
use crate::resolve::rewrite::exprs_rewritten;
use crate::resolve::failures::exprs_can_fail;
use crate::resolve::refs::{
    exprs_fails_with, exprs_lookups_found, exprs_plain, exprs_refs, exprs_resolved,
    lemma_bindings_kept_lookups, lemma_exprs_fails_with_stable, lemma_exprs_resolved_stable,
};
use crate::resolve::{frames_gained, lemma_continues_trans, lemma_frames_gained_trans, ResolutionContext};
use crate::schema::SchemaProvider;

verus! {

impl<'r, T: SchemaProvider> ResolutionContext<'r, T> {
    /// Resolves the arguments of a function call, then the expressions of its
    /// window specification, and hands back the call's qualified form.
    pub fn resolve_function(&mut self, func: &Function) -> (r: Result<Function, ResolutionError>)
        requires
            old(self).wf(),
        ensures
            r matches Ok(f) ==> exprs_rewritten(func.args@, f.args@),
            r matches Ok(f) ==> exprs_rewritten(func.over@, f.over@),
            r matches Ok(f) ==> strings_view(f.name@) == strings_view(func.name@),
            r matches Err(err) ==> exprs_can_fail(func.args@, err) || exprs_can_fail(
                func.over@,
                err,
            ),
            r matches Err(err) ==> exprs_fails_with(
                final(self).scopes@,
                old(self).visible_scopes@,
                func.args@,
                err,
            ) || exprs_fails_with(final(self).scopes@, old(self).visible_scopes@, func.over@, err),
            exprs_plain(func.args@) && exprs_plain(func.over@) ==> (r is Ok <==> exprs_lookups_found(
                old(self).scopes@,
                old(self).visible_scopes@,
                func.args@,
            ) && exprs_lookups_found(old(self).scopes@, old(self).visible_scopes@, func.over@)),
            exprs_plain(func.args@) && exprs_plain(func.over@) ==> final(self).scopes == old(
                self,
            ).scopes,
            final(self).wf(),
            final(self).continues(old(self)),
            !(r matches Err(ResolutionError::UnsupportedQueryType(_))),
            r matches Ok(f) ==> exprs_resolved(
                final(self).scopes@,
                old(self).visible_scopes@,
                func.args@,
                f.args@,
            ),
            r matches Ok(f) ==> exprs_resolved(
                final(self).scopes@,
                old(self).visible_scopes@,
                func.over@,
                f.over@,
            ),
            r matches Ok(f) ==> frames_gained(
                old(self).accumulator_stack@,
                final(self).accumulator_stack@,
                exprs_refs(f.args@).union(exprs_refs(f.over@)),
            ),
        decreases func, 0nat,
    {
        let ghost s0 = *self;
        let args = self.qualify_exprs(&func.args)?;
        let ghost s1 = *self;
        let r = self.qualify_exprs(&func.over);
        proof {
            lemma_continues_trans(&s0, &s1, self);
            lemma_bindings_kept_lookups(s0.scopes@, s1.scopes@);
            if r is Err {
                lemma_exprs_fails_with_stable(s0.scopes@, s1.scopes@, s0.visible_scopes@, func.over@, r->Err_0);
            } else {
                lemma_exprs_fails_with_stable(s0.scopes@, s1.scopes@, s0.visible_scopes@, func.over@, arbitrary());
            }
        }
        let over = r?;
        proof {
            lemma_bindings_kept_lookups(s1.scopes@, self.scopes@);
            lemma_exprs_resolved_stable(s1.scopes@, self.scopes@, s0.visible_scopes@, func.args@, args@);
            lemma_frames_gained_trans(
                s0.accumulator_stack@,
                s1.accumulator_stack@,
                self.accumulator_stack@,
                exprs_refs(args@),
                exprs_refs(over@),
            );
        }
        Ok(Function { name: copy_names(&func.name), args, over })
    }
}

} // verus!
