//! Resolved scopes and the column references they record.
pub mod sources;

use vstd::prelude::*;

use self::sources::SourceMap;

verus! {

/// What opened a scope.
#[derive(Debug, Clone, Copy, PartialEq, Eq, Structural)]
pub enum ScopeType {
    /// The synthetic outermost scope that every resolution starts with.
    Boundary,
    /// The top-level query of a statement.
    Root,
    Cte,
    DerivedTable,
    Subquery,
    SetOpBranch,
}

/// A column of a named source.
#[derive(Debug, Clone, PartialEq, Eq, Hash)]
pub struct ColumnRef {
    pub name: String,
    pub source_name: String,
}

/// A column reference as a mathematical value: (column name, source name).
pub type ColumnKey = (Seq<char>, Seq<char>);

impl View for ColumnRef {
    type V = ColumnKey;

    open spec fn view(&self) -> ColumnKey {
        (self.name@, self.source_name@)
    }
}

impl ColumnRef {
    /// A copy of this reference.
    pub fn duplicate(&self) -> (r: ColumnRef)
        ensures
            r@ == self@,
    {
        ColumnRef { name: self.name.clone(), source_name: self.source_name.clone() }
    }

    /// Whether both references name the same column of the same source.
    pub fn same_as(&self, other: &ColumnRef) -> (b: bool)
        ensures
            b == (self@ == other@),
    {
        self.name == other.name && self.source_name == other.source_name
    }
}

/// A set of column references, each held once.
#[derive(Debug)]
pub struct ColumnSet {
    items: Vec<ColumnRef>,
}

impl View for ColumnSet {
    type V = Set<ColumnKey>;

    closed spec fn view(&self) -> Set<ColumnKey> {
        Set::new(|k: ColumnKey| exists|i: int| 0 <= i < self.items.len() && self.items@[i]@ == k)
    }
}

impl ColumnSet {
    #[verifier::type_invariant]
    spec fn entries_distinct(self) -> bool {
        forall|i: int, j: int|
            0 <= i < j < self.items.len() ==> #[trigger] self.items@[i]@ != #[trigger] self.items@[j]@
    }

    /// The empty set.
    pub fn new() -> (s: ColumnSet)
        ensures
            s@ == Set::<ColumnKey>::empty(),
    {
        let s = ColumnSet { items: Vec::new() };
        assert(s@ =~= Set::<ColumnKey>::empty());
        s
    }

    /// Whether `c` is in the set.
    pub fn contains(&self, c: &ColumnRef) -> (b: bool)
        ensures
            b == self@.contains(c@),
    {
        let mut i: usize = 0;
        while i < self.items.len()
            invariant
                0 <= i <= self.items.len(),
                forall|k: int| 0 <= k < i ==> self.items@[k]@ != c@,
            decreases self.items.len() - i,
        {
            if self.items[i].same_as(c) {
                return true;
            }
            i = i + 1;
        }
        false
    }

    /// Adds `c`; answers whether it was not there before.
    pub fn insert(&mut self, c: ColumnRef) -> (added: bool)
        ensures
            final(self)@ == old(self)@.insert(c@),
            added == !old(self)@.contains(c@),
    {
        if self.contains(&c) {
            assert(old(self)@.insert(c@) =~= old(self)@);
            false
        } else {
            proof {
                use_type_invariant(&*self);
            }
            let mut taken = ColumnSet::new();
            std::mem::swap(self, &mut taken);
            let ColumnSet { items: mut items } = taken;
            let ghost before = items@;
            assert(forall|k: int| 0 <= k < before.len() ==> before[k]@ != c@);
            items.push(c);
            assert(forall|k: int| 0 <= k < before.len() ==> items@[k] == before[k]);
            *self = ColumnSet { items };
            assert(self@ =~= old(self)@.insert(c@)) by {
                assert forall|k: ColumnKey| old(self)@.insert(c@).contains(k) implies self@.contains(k) by {
                    if k == c@ {
                        assert(self.items@[before.len() as int]@ == k);
                    } else {
                        let j = choose|j: int| 0 <= j < before.len() && before[j]@ == k;
                        assert(self.items@[j]@ == k);
                    }
                }
            }
            true
        }
    }

    /// Adds every reference of `other`.
    pub fn extend(&mut self, other: &ColumnSet)
        ensures
            final(self)@ == old(self)@.union(other@),
    {
        let mut i: usize = 0;
        while i < other.items.len()
            invariant
                0 <= i <= other.items.len(),
                forall|k: ColumnKey|
                    self@.contains(k) <==> (old(self)@.contains(k) || exists|j: int|
                        0 <= j < i && other.items@[j]@ == k),
            decreases other.items.len() - i,
        {
            let c = other.items[i].duplicate();
            self.insert(c);
            assert forall|k: ColumnKey|
                self@.contains(k) <==> (old(self)@.contains(k) || exists|j: int|
                    0 <= j < i + 1 && other.items@[j]@ == k) by {
                if k == other.items@[i as int]@ {
                } else if exists|j: int| 0 <= j < i + 1 && other.items@[j]@ == k {
                    let j = choose|j: int| 0 <= j < i + 1 && other.items@[j]@ == k;
                    assert(j < i);
                }
            }
            i = i + 1;
        }
        assert(self@ =~= old(self)@.union(other@));
    }

    /// A copy of the set.
    pub fn duplicate(&self) -> (s: ColumnSet)
        ensures
            s@ == self@,
    {
        let mut s = ColumnSet::new();
        s.extend(self);
        assert(s@ =~= self@);
        s
    }

    /// The references, each once, in the order in which they were added.
    pub fn to_vec(&self) -> (v: Vec<ColumnRef>)
        ensures
            forall|k: ColumnKey|
                self@.contains(k) <==> exists|j: int| 0 <= j < v.len() && v@[j]@ == k,
            forall|i: int, j: int| 0 <= i < j < v.len() ==> v@[i]@ != v@[j]@,
    {
        proof {
            use_type_invariant(self);
        }
        let mut v: Vec<ColumnRef> = Vec::new();
        let mut i: usize = 0;
        while i < self.items.len()
            invariant
                0 <= i <= self.items.len(),
                v.len() == i,
                forall|j: int| 0 <= j < i ==> v@[j]@ == self.items@[j]@,
            decreases self.items.len() - i,
        {
            v.push(self.items[i].duplicate());
            i = i + 1;
        }
        assert forall|k: ColumnKey|
            self@.contains(k) <==> exists|j: int| 0 <= j < v.len() && v@[j]@ == k by {
            if self@.contains(k) {
                let j = choose|j: int| 0 <= j < self.items.len() && self.items@[j]@ == k;
                assert(v@[j]@ == k);
            }
            if exists|j: int| 0 <= j < v.len() && v@[j]@ == k {
                let j = choose|j: int| 0 <= j < v.len() && v@[j]@ == k;
                assert(self.items@[j]@ == k);
            }
        }
        v
    }
}

/// A column of a scope's SELECT list: its output name and the base columns
/// it was computed from.
#[derive(Debug)]
pub struct SelectedColumn {
    pub name: String,
    pub dependencies: ColumnSet,
}

/// A CTE defined by a `WITH` clause of a scope: its name, the scope that
/// resolved its query, and its output names.
#[derive(Debug)]
pub struct CteBinding {
    pub name: String,
    pub scope_id: usize,
    pub columns: Vec<String>,
}

/// One scope of a resolved statement, in a flat arena of scopes linked by
/// ids: `parent` points up, `children` down.
#[derive(Debug)]
pub struct ResolvedScope {
    pub id: usize,
    pub parent: usize,
    pub children: Vec<usize>,
    pub scope_type: ScopeType,
    /// Whether column references may look past this scope into its parent
    /// (correlated subqueries, `LATERAL` derived tables).
    pub allow_lateral: bool,
    pub sources: SourceMap,
    pub ctes: Vec<CteBinding>,
    pub selected_columns: Vec<SelectedColumn>,
    pub join_columns: ColumnSet,
    pub filter_columns: ColumnSet,
    pub group_by_columns: ColumnSet,
    pub sort_columns: ColumnSet,
}

impl ResolvedScope {
    /// A scope with the given identity and no content.
    pub fn new(id: usize, parent: usize, scope_type: ScopeType, allow_lateral: bool) -> (s:
        ResolvedScope)
        ensures
            s.id == id,
            s.parent == parent,
            s.children@.len() == 0,
            s.scope_type == scope_type,
            s.allow_lateral == allow_lateral,
            s.sources.entries@.len() == 0,
            s.ctes@.len() == 0,
            s.selected_columns@.len() == 0,
            s.join_columns@ == Set::<ColumnKey>::empty(),
            s.filter_columns@ == Set::<ColumnKey>::empty(),
            s.group_by_columns@ == Set::<ColumnKey>::empty(),
            s.sort_columns@ == Set::<ColumnKey>::empty(),
    {
        ResolvedScope {
            id,
            parent,
            children: Vec::new(),
            scope_type,
            allow_lateral,
            sources: SourceMap::new(),
            ctes: Vec::new(),
            selected_columns: Vec::new(),
            join_columns: ColumnSet::new(),
            filter_columns: ColumnSet::new(),
            group_by_columns: ColumnSet::new(),
            sort_columns: ColumnSet::new(),
        }
    }
}

} // verus!
