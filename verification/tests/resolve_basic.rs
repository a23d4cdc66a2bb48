use std::collections::HashMap;

use treebolt::ast::{Expr, Query, Select, SelectItem, SetExpr, Statement, TableFactor, TableWithJoins};
use treebolt::resolve::errors::ResolutionError;
use treebolt::resolve::scope::sources::ResolvedSource;
use treebolt::resolve::scope::{ColumnRef, ResolvedScope, ScopeType};
use treebolt::resolve::{ResolutionOptions, Resolver};
use treebolt::schema::{SchemaProvider, TableSchema};

struct InMemorySchema {
    tables: HashMap<String, Vec<String>>,
}

impl InMemorySchema {
    fn new(entries: Vec<(&str, Vec<&str>)>) -> Self {
        let tables = entries
            .into_iter()
            .map(|(k, cols)| (k.to_string(), cols.into_iter().map(String::from).collect()))
            .collect();
        InMemorySchema { tables }
    }
}

impl SchemaProvider for InMemorySchema {
    fn get_schema(&self, ident: &Vec<String>) -> Option<TableSchema> {
        self.tables.get(&ident.join(".")).map(|cols| TableSchema { columns: cols.clone() })
    }
}

fn resolve(statement: &mut Statement, schema: InMemorySchema) -> Result<Vec<ResolvedScope>, ResolutionError> {
    let resolver = Resolver::new(
        schema,
        ResolutionOptions { expand_select_wildcards: false, qualify: false },
    );
    resolver.resolve(statement)
}

fn ident(name: &str) -> Expr {
    Expr::Identifier(name.to_string())
}

fn table(name: &str) -> TableWithJoins {
    TableWithJoins {
        relation: TableFactor::Table {
            name: name.split('.').map(String::from).collect(),
            alias: None,
        },
        joins: vec![],
    }
}

fn select_stmt(projection: Vec<SelectItem>, from: Vec<TableWithJoins>) -> Statement {
    Statement::Query(Box::new(Query {
        with: vec![],
        body: Box::new(SetExpr::Select(Box::new(Select {
            projection,
            from,
            selection: None,
            group_by: vec![],
            having: None,
        }))),
        order_by: vec![],
    }))
}

#[test]
fn simple_select_resolves_root_scope_with_table_source() {
    let schema = InMemorySchema::new(vec![("users", vec!["id", "name", "email"])]);

    // SELECT id, name FROM users
    let mut stmt = select_stmt(
        vec![SelectItem::UnnamedExpr(ident("id")), SelectItem::UnnamedExpr(ident("name"))],
        vec![table("users")],
    );
    let scopes = resolve(&mut stmt, schema).expect("resolve");

    // Index 0 is the synthetic Boundary scope; index 1 is the Root scope for the query.
    assert_eq!(scopes.len(), 2);
    assert!(matches!(scopes[0].scope_type, ScopeType::Boundary));
    assert!(matches!(scopes[1].scope_type, ScopeType::Root));

    let root = &scopes[1];

    assert_eq!(root.sources.len(), 1);
    let source = root.sources.get("users").expect("users source registered");
    match source {
        ResolvedSource::Table(t) => {
            assert_eq!(t.ident, vec!["users".to_string()]);
            assert_eq!(t.list_cols(), &["id", "name", "email"]);
        }
        _ => panic!("expected TableSource"),
    }

    let names: Vec<_> = root.selected_columns.iter().map(|c| c.name.as_str()).collect();
    assert_eq!(names, vec!["id", "name"]);

    let id_deps = &root.selected_columns[0].dependencies;
    assert!(id_deps.contains(&ColumnRef { name: "id".into(), source_name: "users".into() }));
}

#[test]
fn unknown_table_returns_table_not_found() {
    let schema = InMemorySchema::new(vec![("users", vec!["id"])]);

    // SELECT id FROM orders
    let mut stmt = select_stmt(vec![SelectItem::UnnamedExpr(ident("id"))], vec![table("orders")]);
    let err = match resolve(&mut stmt, schema) {
        Ok(_) => panic!("expected error"),
        Err(e) => e,
    };

    assert!(
        matches!(err, ResolutionError::TableNotFound(_)),
        "expected TableNotFound, got {err:?}"
    );
}

#[test]
fn unknown_column_returns_column_not_found() {
    let schema = InMemorySchema::new(vec![("users", vec!["id"])]);

    // SELECT missing FROM users
    let mut stmt = select_stmt(vec![SelectItem::UnnamedExpr(ident("missing"))], vec![table("users")]);
    let err = match resolve(&mut stmt, schema) {
        Ok(_) => panic!("expected error"),
        Err(e) => e,
    };

    assert!(
        matches!(err, ResolutionError::ColumnNotFound(_)),
        "expected ColumnNotFound, got {err:?}"
    );
}

#[test]
fn aliased_projection_uses_alias_as_selected_name() {
    let schema = InMemorySchema::new(vec![("users", vec!["id", "name"])]);

    // SELECT name AS full_name FROM users
    let mut stmt = select_stmt(
        vec![SelectItem::ExprWithAlias { expr: ident("name"), alias: "full_name".to_string() }],
        vec![table("users")],
    );
    let scopes = resolve(&mut stmt, schema).expect("resolve");

    let root = &scopes[1];
    assert_eq!(root.selected_columns.len(), 1);
    assert_eq!(root.selected_columns[0].name, "full_name");
    assert!(root.selected_columns[0].dependencies.contains(&ColumnRef {
        name: "name".into(),
        source_name: "users".into(),
    }));
}
