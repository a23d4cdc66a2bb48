//! Resolution of column references against the visible scopes.
use vstd::prelude::*;

use crate::resolve::errors::ResolutionError;
use crate::resolve::scope::sources::{ResolvedSource, SourceEntry};
use crate::resolve::scope::{ColumnRef, ResolvedScope};
use crate::resolve::{frames_gained, ResolutionContext, ScopeId};
use crate::schema::SchemaProvider;

verus! {

/// The outcome of looking a column reference up.
pub enum ColumnLookup {
    /// Exactly one source of the nearest scope that has one provides it;
    /// holds that source's name.
    Found(Seq<char>),
    /// No source of any searched scope provides it.
    NotFound,
    /// Two or more sources of the nearest scope that has one provide it.
    Ambiguous,
}

/// The text of each string.
pub open spec fn strings_view(v: Seq<String>) -> Seq<Seq<char>> {
    v.map_values(|s: String| s@)
}

/// Whether qualifier `q` names the source entry `e`: an empty qualifier names
/// every source, a one-part qualifier the source registered under that name,
/// and the full name of a table its table source.
pub open spec fn qualifier_names(q: Seq<Seq<char>>, e: SourceEntry) -> bool {
    ||| q.len() == 0
    ||| q == seq![e.name@]
    ||| (e.source matches ResolvedSource::Table(t) && q == strings_view(t.ident@))
}

/// Whether `cols` holds a column named `col`.
pub open spec fn has_column(cols: Seq<String>, col: Seq<char>) -> bool {
    exists|i: int| 0 <= i < cols.len() && #[trigger] cols[i]@ == col
}

/// Whether source entry `e` provides column `col` under qualifier `q`.
pub open spec fn provides(e: SourceEntry, q: Seq<Seq<char>>, col: Seq<char>) -> bool {
    qualifier_names(q, e) && has_column(e.source.spec_columns(), col)
}

/// Looking `q.col` up among the sources of one scope.
pub open spec fn scope_lookup(entries: Seq<SourceEntry>, q: Seq<Seq<char>>, col: Seq<char>) -> ColumnLookup {
    if exists|i: int| 0 <= i < entries.len() && #[trigger] provides(entries[i], q, col) {
        let i = choose|i: int| 0 <= i < entries.len() && #[trigger] provides(entries[i], q, col);
        if exists|j: int| 0 <= j < entries.len() && j != i && #[trigger] provides(entries[j], q, col) {
            ColumnLookup::Ambiguous
        } else {
            ColumnLookup::Found(entries[i].name@)
        }
    } else {
        ColumnLookup::NotFound
    }
}

/// Looking `q.col` up from `visible[k]` outward: a scope that has a match
/// decides; a scope without one passes the search on to the next outer
/// scope only where it allows lateral references.
pub open spec fn lookup_from(
    scopes: Seq<ResolvedScope>,
    visible: Seq<usize>,
    k: int,
    q: Seq<Seq<char>>,
    col: Seq<char>,
) -> ColumnLookup
    decreases k + 1,
{
    if k < 0 {
        ColumnLookup::NotFound
    } else {
        let s = scopes[visible[k] as int];
        match scope_lookup(s.sources.entries@, q, col) {
            ColumnLookup::NotFound => {
                if s.allow_lateral {
                    lookup_from(scopes, visible, k - 1, q, col)
                } else {
                    ColumnLookup::NotFound
                }
            },
            r => r,
        }
    }
}

/// Looking `q.col` up from the active scope (the last of `visible`) outward.
pub open spec fn column_lookup(
    scopes: Seq<ResolvedScope>,
    visible: Seq<usize>,
    q: Seq<Seq<char>>,
    col: Seq<char>,
) -> ColumnLookup {
    lookup_from(scopes, visible, visible.len() - 1, q, col)
}

/// The matches of a reference among the sources of one scope.
pub enum ScopeMatch {
    NoMatch,
    One(usize),
    Many,
}

/// Whether two lists of names are equal part by part.
pub fn same_names(a: &Vec<String>, b: &Vec<String>) -> (r: bool)
    ensures
        r == (strings_view(a@) == strings_view(b@)),
{
    if a.len() != b.len() {
        assert(strings_view(a@).len() != strings_view(b@).len());
        return false;
    }
    let mut i: usize = 0;
    while i < a.len()
        invariant
            0 <= i <= a.len(),
            a.len() == b.len(),
            forall|k: int| 0 <= k < i ==> a@[k]@ == b@[k]@,
        decreases a.len() - i,
    {
        if a[i] != b[i] {
            assert(strings_view(a@)[i as int] != strings_view(b@)[i as int]);
            return false;
        }
        i = i + 1;
    }
    assert(strings_view(a@) =~= strings_view(b@));
    true
}

/// Whether `cols` holds a column named `col`.
pub fn contains_name(cols: &Vec<String>, col: &String) -> (r: bool)
    ensures
        r == has_column(cols@, col@),
{
    let mut i: usize = 0;
    while i < cols.len()
        invariant
            0 <= i <= cols.len(),
            forall|k: int| 0 <= k < i ==> cols@[k]@ != col@,
        decreases cols.len() - i,
    {
        if cols[i] == *col {
            return true;
        }
        i = i + 1;
    }
    false
}

/// Whether qualifier `q` names the source entry `e`.
pub fn names_entry(q: &Vec<String>, e: &SourceEntry) -> (r: bool)
    ensures
        r == qualifier_names(strings_view(q@), *e),
{
    if q.len() == 0 {
        return true;
    }
    if q.len() == 1 && q[0] == e.name {
        assert(strings_view(q@) =~= seq![e.name@]);
        return true;
    }
    assert(strings_view(q@) != seq![e.name@]) by {
        if strings_view(q@) == seq![e.name@] {
            assert(strings_view(q@).len() == q@.len());
            assert(strings_view(q@)[0] == q@[0]@);
            assert(seq![e.name@][0] == e.name@);
        }
    }
    match &e.source {
        ResolvedSource::Table(t) => same_names(q, &t.ident),
        _ => false,
    }
}

/// Whether source entry `e` provides `q.col`.
pub fn entry_provides(e: &SourceEntry, q: &Vec<String>, col: &String) -> (r: bool)
    ensures
        r == provides(*e, strings_view(q@), col@),
{
    names_entry(q, e) && contains_name(e.source.list_cols(), col)
}

/// The sources of `entries` that provide `q.col`: none, exactly one, or more.
pub fn match_sources(entries: &Vec<SourceEntry>, q: &Vec<String>, col: &String) -> (r: ScopeMatch)
    ensures
        match scope_lookup(entries@, strings_view(q@), col@) {
            ColumnLookup::NotFound => r is NoMatch,
            ColumnLookup::Ambiguous => r is Many,
            ColumnLookup::Found(name) => r matches ScopeMatch::One(i) && i < entries@.len()
                && entries@[i as int].name@ == name && provides(
                entries@[i as int],
                strings_view(q@),
                col@,
            ),
        },
{
    let ghost qv = strings_view(q@);
    let mut first: Option<usize> = None;
    let mut i: usize = 0;
    while i < entries.len()
        invariant
            0 <= i <= entries.len(),
            qv == strings_view(q@),
            match first {
                None => forall|k: int| 0 <= k < i ==> !provides(entries@[k], qv, col@),
                Some(f) => f < i && provides(entries@[f as int], qv, col@) && forall|k: int|
                    0 <= k < i && k != f ==> !provides(entries@[k], qv, col@),
            },
        decreases entries.len() - i,
    {
        if entry_provides(&entries[i], q, col) {
            match first {
                None => {
                    first = Some(i);
                },
                Some(f) => {
                    proof {
                        let c = choose|c: int|
                            0 <= c < entries.len() && #[trigger] provides(entries@[c], qv, col@);
                        if c == f {
                            assert(provides(entries@[i as int], qv, col@));
                        } else {
                            assert(provides(entries@[f as int], qv, col@));
                        }
                    }
                    return ScopeMatch::Many;
                },
            }
        }
        i = i + 1;
    }
    match first {
        None => ScopeMatch::NoMatch,
        Some(f) => {
            proof {
                assert(provides(entries@[f as int], qv, col@));
            }
            ScopeMatch::One(f)
        },
    }
}

impl<'r, T: SchemaProvider> ResolutionContext<'r, T> {
    /// Resolves the column reference `qualifier.name` from the active scope
    /// outward and records it into every open accumulator.
    pub fn resolve_col(&mut self, name: &String, qualifier: &Vec<String>) -> (r: Result<
        ColumnRef,
        ResolutionError,
    >)
        requires
            old(self).wf(),
        ensures
            final(self).resolver == old(self).resolver,
            final(self).scopes == old(self).scopes,
            final(self).active_scope == old(self).active_scope,
            final(self).visible_scopes == old(self).visible_scopes,
            match column_lookup(
                old(self).scopes@,
                old(self).visible_scopes@,
                strings_view(qualifier@),
                name@,
            ) {
                ColumnLookup::Found(source) => r matches Ok(c) && c@ == (name@, source)
                    && frames_gained(
                    old(self).accumulator_stack@,
                    final(self).accumulator_stack@,
                    set![c@],
                ),
                ColumnLookup::NotFound => r matches Err(ResolutionError::ColumnNotFound(n)) && n@
                    == name@ && final(self).accumulator_stack == old(self).accumulator_stack,
                ColumnLookup::Ambiguous => r matches Err(ResolutionError::AmbiguousColumn(n)) && n@
                    == name@ && final(self).accumulator_stack == old(self).accumulator_stack,
            },
    {
        let ghost qv = strings_view(qualifier@);
        let ghost scopes = self.scopes@;
        let ghost visible = self.visible_scopes@;
        let mut k: usize = self.visible_scopes.len();
        while k > 0
            invariant
                self.wf(),
                self.scopes@ == scopes,
                self.visible_scopes@ == visible,
                self.accumulator_stack == old(self).accumulator_stack,
                self.resolver == old(self).resolver,
                self.active_scope == old(self).active_scope,
                self.scopes == old(self).scopes,
                self.visible_scopes == old(self).visible_scopes,
                qv == strings_view(qualifier@),
                0 <= k <= visible.len(),
                column_lookup(scopes, visible, qv, name@) == lookup_from(
                    scopes,
                    visible,
                    k - 1,
                    qv,
                    name@,
                ),
            decreases k,
        {
            k = k - 1;
            let sid: ScopeId = self.visible_scopes[k];
            match match_sources(&self.scopes[sid].sources.entries, qualifier, name) {
                ScopeMatch::One(i) => {
                    let c = ColumnRef {
                        name: name.clone(),
                        source_name: self.scopes[sid].sources.entries[i].name.clone(),
                    };
                    self.record_column(c.duplicate());
                    return Ok(c);
                },
                ScopeMatch::Many => {
                    return Err(ResolutionError::AmbiguousColumn(name.clone()));
                },
                ScopeMatch::NoMatch => {
                    if !self.scopes[sid].allow_lateral {
                        return Err(ResolutionError::ColumnNotFound(name.clone()));
                    }
                },
            }
        }
        Err(ResolutionError::ColumnNotFound(name.clone()))
    }
}

} // verus!
