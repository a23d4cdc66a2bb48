//! Scope-shape and error-category checks on small queries, each written as
//! the syntax tree of the SQL text in its comment.

use std::collections::HashMap;

use treebolt::ast::{
    Cte, Expr, Function, Query, Select, SelectItem, SetExpr, Statement, TableFactor, TableWithJoins,
};
use treebolt::resolve::errors::ResolutionError;
use treebolt::resolve::scope::{ResolvedScope, ScopeType};
use treebolt::resolve::{ResolutionOptions, Resolver};
use treebolt::schema::{SchemaProvider, TableSchema};

struct InMemorySchema {
    tables: HashMap<String, Vec<String>>,
}

impl InMemorySchema {
    fn new(entries: Vec<(&str, Vec<&str>)>) -> Self {
        let tables = entries
            .into_iter()
            .map(|(k, cols)| (k.to_string(), cols.into_iter().map(String::from).collect()))
            .collect();
        InMemorySchema { tables }
    }
}

impl SchemaProvider for InMemorySchema {
    fn get_schema(&self, ident: &Vec<String>) -> Option<TableSchema> {
        self.tables.get(&ident.join(".")).map(|cols| TableSchema { columns: cols.clone() })
    }
}

fn resolve(mut statement: Statement, schema: InMemorySchema) -> Result<Vec<ResolvedScope>, ResolutionError> {
    let resolver = Resolver::new(
        schema,
        ResolutionOptions { expand_select_wildcards: false, qualify: false },
    );
    resolver.resolve(&mut statement)
}

fn parts(dotted: &str) -> Vec<String> {
    dotted.split('.').map(String::from).collect()
}

fn ident(name: &str) -> Expr {
    Expr::Identifier(name.to_string())
}

fn compound(dotted: &str) -> Expr {
    let mut p = parts(dotted);
    let name = p.pop().unwrap();
    Expr::CompoundIdentifier { qualifier: p, name }
}

fn lit(v: &str) -> Expr {
    Expr::Value(v.to_string())
}

fn op(o: &str, operands: Vec<Expr>) -> Expr {
    Expr::Composite { op: o.to_string(), operands }
}

fn item(e: Expr) -> SelectItem {
    SelectItem::UnnamedExpr(e)
}

fn aliased(e: Expr, alias: &str) -> SelectItem {
    SelectItem::ExprWithAlias { expr: e, alias: alias.to_string() }
}

fn table(dotted: &str) -> TableWithJoins {
    TableWithJoins { relation: TableFactor::Table { name: parts(dotted), alias: None }, joins: vec![] }
}

fn derived(q: Query, alias: &str) -> TableWithJoins {
    TableWithJoins {
        relation: TableFactor::Derived {
            lateral: false,
            subquery: Box::new(q),
            alias: Some(alias.to_string()),
        },
        joins: vec![],
    }
}

fn select(projection: Vec<SelectItem>, from: Vec<TableWithJoins>, selection: Option<Expr>) -> Select {
    Select { projection, from, selection, group_by: vec![], having: None }
}

fn query(with: Vec<Cte>, s: Select) -> Query {
    Query { with, body: Box::new(SetExpr::Select(Box::new(s))), order_by: vec![] }
}

fn cte(alias: &str, q: Query) -> Cte {
    Cte { alias: alias.to_string(), query: Box::new(q) }
}

fn stmt(q: Query) -> Statement {
    Statement::Query(Box::new(q))
}

// ---------- edge_cases ----------

#[test]
fn edge_count_aggregate_resolves() {
    // SELECT COUNT(id) FROM scrap.ujwal_t3
    let count = Expr::Function(Function { name: parts("COUNT"), args: vec![ident("id")], over: vec![] });
    let sql = stmt(query(vec![], select(vec![item(count)], vec![table("scrap.ujwal_t3")], None)));
    let schema = InMemorySchema::new(vec![("scrap.ujwal_t3", vec!["id"])]);

    let scopes = resolve(sql, schema).expect("resolve count_aggregate");

    let root = &scopes[1];
    assert!(matches!(root.scope_type, ScopeType::Root));
    assert_eq!(root.sources.len(), 1, "expected one FROM source");
    assert_eq!(root.selected_columns.len(), 1, "COUNT(id) is one projection");
}

#[test]
fn edge_derived_table_dot_reference_resolves() {
    // SELECT T.order_id FROM (SELECT order_id, order_date FROM platinum.order_master_bi) AS T
    let inner = query(
        vec![],
        select(
            vec![item(ident("order_id")), item(ident("order_date"))],
            vec![table("platinum.order_master_bi")],
            None,
        ),
    );
    let sql = stmt(query(vec![], select(vec![item(compound("T.order_id"))], vec![derived(inner, "T")], None)));
    let schema = InMemorySchema::new(vec![(
        "platinum.order_master_bi",
        vec!["order_date", "order_id"],
    )]);

    let scopes = resolve(sql, schema).expect("resolve derived_table_dot_reference");

    // Root + DerivedTable scope at minimum.
    assert!(scopes.len() >= 3);
    let root = &scopes[1];
    assert!(root.sources.contains_key("T"), "derived table should expose alias `T`");
}

#[test]
fn edge_qualified_column_three_part_resolves() {
    // SELECT delta.platinum.order_master_bi.order_date FROM delta.platinum.order_master_bi
    let sql = stmt(query(
        vec![],
        select(
            vec![item(compound("delta.platinum.order_master_bi.order_date"))],
            vec![table("delta.platinum.order_master_bi")],
            None,
        ),
    ));
    let schema = InMemorySchema::new(vec![(
        "delta.platinum.order_master_bi",
        vec!["order_date"],
    )]);

    let scopes = resolve(sql, schema).expect("resolve qualified_column_three_part");
    let root = &scopes[1];
    assert_eq!(root.selected_columns.len(), 1);
}

#[test]
fn edge_select_star_qualified_resolves() {
    // SELECT gold.order_master_bi.* FROM gold.order_master_bi
    let sql = stmt(query(
        vec![],
        select(
            vec![SelectItem::QualifiedWildcard(parts("gold.order_master_bi"))],
            vec![table("gold.order_master_bi")],
            None,
        ),
    ));
    let schema = InMemorySchema::new(vec![(
        "gold.order_master_bi",
        vec!["order_id", "order_date"],
    )]);

    let scopes = resolve(sql, schema).expect("resolve select_star_qualified");
    let root = &scopes[1];
    assert_eq!(root.sources.len(), 1);
}

// ---------- cte ----------

#[test]
fn cte_visible_in_derived_table_resolves() {
    // WITH t AS (SELECT 1 AS id) SELECT d.id FROM (SELECT id FROM t) AS d
    let t = query(vec![], select(vec![aliased(lit("1"), "id")], vec![], None));
    let inner = query(vec![], select(vec![item(ident("id"))], vec![table("t")], None));
    let sql = stmt(query(
        vec![cte("t", t)],
        select(vec![item(compound("d.id"))], vec![derived(inner, "d")], None),
    ));
    let schema = InMemorySchema::new(Vec::<(&'static str, Vec<&str>)>::new());

    resolve(sql, schema).expect("resolve cte_visible_in_derived_table");
}

#[test]
fn cte_shadowed_in_derived_table_resolves() {
    // WITH t AS (SELECT 1 AS id)
    // SELECT id FROM (WITH t AS (SELECT 2 AS id) SELECT id FROM t) AS d
    let outer_t = query(vec![], select(vec![aliased(lit("1"), "id")], vec![], None));
    let inner_t = query(vec![], select(vec![aliased(lit("2"), "id")], vec![], None));
    let inner = query(vec![cte("t", inner_t)], select(vec![item(ident("id"))], vec![table("t")], None));
    let sql = stmt(query(
        vec![cte("t", outer_t)],
        select(vec![item(ident("id"))], vec![derived(inner, "d")], None),
    ));
    let schema = InMemorySchema::new(Vec::<(&'static str, Vec<&str>)>::new());

    resolve(sql, schema).expect("resolve cte_shadowed_in_derived_table");
}

#[test]
fn cte_inner_references_undefined_fails_with_table_not_found() {
    // WITH t1 AS (SELECT id FROM t3) SELECT id FROM t1
    let t1 = query(vec![], select(vec![item(ident("id"))], vec![table("t3")], None));
    let sql = stmt(query(vec![cte("t1", t1)], select(vec![item(ident("id"))], vec![table("t1")], None)));
    let schema = InMemorySchema::new(Vec::<(&'static str, Vec<&str>)>::new());

    let err = match resolve(sql, schema) {
        Ok(_) => panic!("expected resolution to fail — t3 is undefined"),
        Err(e) => e,
    };

    assert!(
        matches!(err, ResolutionError::TableNotFound(_)),
        "expected TableNotFound, got {err:?}"
    );
}

// ---------- scope_tree ----------

#[test]
fn scope_correlated_any_subquery_resolves() {
    // SELECT column_1 FROM Table_1
    // WHERE column_2 = ANY (SELECT column_2 FROM Table_2 WHERE Table_2.column_1 = Table_1.column_1)
    let sub = query(
        vec![],
        select(
            vec![item(ident("column_2"))],
            vec![table("Table_2")],
            Some(op("=", vec![compound("Table_2.column_1"), compound("Table_1.column_1")])),
        ),
    );
    let cond = op("= ANY", vec![ident("column_2"), Expr::Subquery(Box::new(sub))]);
    let sql = stmt(query(vec![], select(vec![item(ident("column_1"))], vec![table("Table_1")], Some(cond))));
    let schema = InMemorySchema::new(vec![
        ("Table_1", vec!["column_1", "column_2"]),
        ("Table_2", vec!["column_1", "column_2"]),
    ]);

    let scopes = resolve(sql, schema).expect("resolve correlated_any_subquery");

    // Root + Subquery scope at minimum.
    assert!(
        scopes.iter().any(|s| matches!(s.scope_type, ScopeType::Subquery)),
        "correlated subquery should produce a Subquery scope"
    );
}

#[test]
fn scope_cte_subquery_union_resolves() {
    // WITH active AS (SELECT id, name FROM users WHERE id IN (SELECT user_id FROM logins))
    // SELECT a.name FROM (SELECT id, name FROM active) AS a WHERE EXISTS (SELECT id FROM orders)
    // UNION
    // SELECT x FROM other_table
    let logins = query(vec![], select(vec![item(ident("user_id"))], vec![table("logins")], None));
    let active = query(
        vec![],
        select(
            vec![item(ident("id")), item(ident("name"))],
            vec![table("users")],
            Some(Expr::InSubquery { expr: Box::new(ident("id")), subquery: Box::new(logins) }),
        ),
    );
    let from_active = query(vec![], select(vec![item(ident("id")), item(ident("name"))], vec![table("active")], None));
    let orders = query(vec![], select(vec![item(ident("id"))], vec![table("orders")], None));
    let left = select(
        vec![item(compound("a.name"))],
        vec![derived(from_active, "a")],
        Some(Expr::Exists(Box::new(orders))),
    );
    let right = select(vec![item(ident("x"))], vec![table("other_table")], None);
    let body = SetExpr::SetOperation {
        left: Box::new(SetExpr::Select(Box::new(left))),
        right: Box::new(SetExpr::Select(Box::new(right))),
    };
    let sql = stmt(Query { with: vec![cte("active", active)], body: Box::new(body), order_by: vec![] });
    let schema = InMemorySchema::new(vec![
        ("users", vec!["id", "name"]),
        ("orders", vec!["id"]),
        ("logins", vec!["user_id"]),
        ("other_table", vec!["x"]),
    ]);

    let scopes = resolve(sql, schema).expect("resolve cte_subquery_union");

    // Expect the scope tree to contain every flavor exercised by the query.
    let kinds: Vec<&ScopeType> = scopes.iter().map(|s| &s.scope_type).collect();
    assert!(kinds.iter().any(|k| matches!(k, ScopeType::Cte)), "missing Cte");
    assert!(kinds.iter().any(|k| matches!(k, ScopeType::DerivedTable)), "missing DerivedTable");
    assert!(kinds.iter().any(|k| matches!(k, ScopeType::Subquery)), "missing Subquery");
    assert!(kinds.iter().any(|k| matches!(k, ScopeType::SetOpBranch)), "missing SetOpBranch");
}

// ---------- unsupported ----------

#[test]
fn unsupported_create_table_as_select_returns_unsupported_query_type() {
    // CREATE TABLE t AS SELECT order_date FROM platinum.order_master_bi
    let sql = Statement::Other("CreateTable".to_string());
    let schema = InMemorySchema::new(vec![(
        "platinum.order_master_bi",
        vec!["order_date"],
    )]);

    let err = match resolve(sql, schema) {
        Ok(_) => panic!("expected CTAS to be rejected as unsupported"),
        Err(e) => e,
    };

    assert!(
        matches!(err, ResolutionError::UnsupportedQueryType(_)),
        "expected UnsupportedQueryType, got {err:?}"
    );
}
