//! The sources (tables, derived tables, CTE references) a scope reads from.
use vstd::prelude::*;

verus! {

/// A base table, with the columns the schema provider reported for it.
#[derive(Debug, Clone)]
pub struct TableSource {
    pub ident: Vec<String>,
    pub columns: Vec<String>,
}

/// A derived table: the scope that resolved its query, and its output names.
#[derive(Debug, Clone)]
pub struct DerivedSource {
    pub scope_id: usize,
    pub columns: Vec<String>,
}

/// A reference to a CTE: the CTE's name, the scope that resolved its query,
/// and its output names.
#[derive(Debug, Clone)]
pub struct CteSource {
    pub name: String,
    pub scope_id: usize,
    pub columns: Vec<String>,
}

/// A table-valued function: its name and the column names its alias lists.
#[derive(Debug, Clone)]
pub struct FunctionSource {
    pub name: Vec<String>,
    pub columns: Vec<String>,
}

/// A source of a scope.
#[derive(Debug, Clone)]
pub enum ResolvedSource {
    Table(TableSource),
    Derived(DerivedSource),
    Cte(CteSource),
    Function(FunctionSource),
}

impl TableSource {
    /// The table's columns.
    pub fn list_cols(&self) -> (cols: &Vec<String>)
        ensures
            cols == &self.columns,
    {
        &self.columns
    }
}

impl ResolvedSource {
    /// The columns the source provides.
    pub open spec fn spec_columns(&self) -> Seq<String> {
        match self {
            ResolvedSource::Table(t) => t.columns@,
            ResolvedSource::Derived(d) => d.columns@,
            ResolvedSource::Cte(c) => c.columns@,
            ResolvedSource::Function(f) => f.columns@,
        }
    }

    /// The columns the source provides.
    pub fn list_cols(&self) -> (cols: &Vec<String>)
        ensures
            cols@ == self.spec_columns(),
    {
        match self {
            ResolvedSource::Table(t) => &t.columns,
            ResolvedSource::Derived(d) => &d.columns,
            ResolvedSource::Cte(c) => &c.columns,
            ResolvedSource::Function(f) => &f.columns,
        }
    }
}

/// A source together with the name under which the scope knows it.
#[derive(Debug, Clone)]
pub struct SourceEntry {
    pub name: String,
    pub source: ResolvedSource,
}

/// The sources of a scope, in the order in which they were registered.
#[derive(Debug, Clone)]
pub struct SourceMap {
    pub entries: Vec<SourceEntry>,
}

impl SourceMap {
    /// Whether some entry is registered under `name`.
    pub open spec fn has_key(self, name: Seq<char>) -> bool {
        exists|i: int| 0 <= i < self.entries.len() && #[trigger] self.entries@[i].name@ == name
    }

    /// No sources.
    pub fn new() -> (m: SourceMap)
        ensures
            m.entries@.len() == 0,
    {
        SourceMap { entries: Vec::new() }
    }

    /// The number of registered sources.
    pub fn len(&self) -> (n: usize)
        ensures
            n == self.entries@.len(),
    {
        self.entries.len()
    }

    /// Registers `source` under `name`, after the existing ones.
    pub fn push(&mut self, name: String, source: ResolvedSource)
        ensures
            final(self).entries@ == old(self).entries@.push(SourceEntry { name, source }),
    {
        self.entries.push(SourceEntry { name, source });
    }

    /// The first source registered under `name`.
    pub fn get(&self, name: &str) -> (r: Option<&ResolvedSource>)
        ensures
            r is None <==> !self.has_key(name@),
            r matches Some(s) ==> exists|i: int|
                0 <= i < self.entries.len() && self.entries@[i].name@ == name@ && s
                    == &self.entries@[i].source && forall|k: int|
                    0 <= k < i ==> self.entries@[k].name@ != name@,
    {
        let key = name.to_owned();
        let mut i: usize = 0;
        while i < self.entries.len()
            invariant
                0 <= i <= self.entries.len(),
                key@ == name@,
                forall|k: int| 0 <= k < i ==> self.entries@[k].name@ != name@,
            decreases self.entries.len() - i,
        {
            if self.entries[i].name == key {
                return Some(&self.entries[i].source);
            }
            i = i + 1;
        }
        None
    }

    /// Whether some source is registered under `name`.
    pub fn contains_key(&self, name: &str) -> (b: bool)
        ensures
            b == self.has_key(name@),
    {
        self.get(name).is_some()
    }
}

} // verus!
