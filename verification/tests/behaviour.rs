//! Scenarios for the resolver's rules: lookup, lateral visibility, role
//! tagging, set operations, wildcards, every error, and the scope and
//! accumulator bookkeeping.

use std::collections::HashMap;

use treebolt::ast::{
    Cte, Expr, Join, Query, Select, SelectItem, SetExpr, Statement, TableFactor, TableWithJoins,
};
use treebolt::resolve::errors::ResolutionError;
use treebolt::resolve::scope::sources::{ResolvedSource, SourceMap, TableSource};
use treebolt::resolve::scope::{ColumnRef, ColumnSet, ResolvedScope, ScopeType};
use treebolt::resolve::{ResolutionContext, ResolutionOptions, Resolver};
use treebolt::schema::{SchemaProvider, TableSchema};

struct InMemorySchema {
    tables: HashMap<String, Vec<String>>,
}

impl InMemorySchema {
    fn new(entries: Vec<(&str, Vec<&str>)>) -> Self {
        let tables = entries
            .into_iter()
            .map(|(k, cols)| (k.to_string(), cols.into_iter().map(String::from).collect()))
            .collect();
        InMemorySchema { tables }
    }
}

impl SchemaProvider for InMemorySchema {
    fn get_schema(&self, ident: &Vec<String>) -> Option<TableSchema> {
        self.tables.get(&ident.join(".")).map(|cols| TableSchema { columns: cols.clone() })
    }
}

fn shop() -> InMemorySchema {
    InMemorySchema::new(vec![
        ("users", vec!["id", "name", "email"]),
        ("orders", vec!["id", "user_id", "total"]),
        ("logins", vec!["user_id"]),
    ])
}

fn options() -> ResolutionOptions {
    ResolutionOptions { expand_select_wildcards: false, qualify: false }
}

fn resolve(statement: &mut Statement, schema: InMemorySchema) -> Result<Vec<ResolvedScope>, ResolutionError> {
    Resolver::new(schema, options()).resolve(statement)
}

fn parts(dotted: &str) -> Vec<String> {
    dotted.split('.').map(String::from).collect()
}

fn ident(name: &str) -> Expr {
    Expr::Identifier(name.to_string())
}

fn compound(dotted: &str) -> Expr {
    let mut p = parts(dotted);
    let name = p.pop().unwrap();
    Expr::CompoundIdentifier { qualifier: p, name }
}

fn lit(v: &str) -> Expr {
    Expr::Value(v.to_string())
}

fn op(o: &str, operands: Vec<Expr>) -> Expr {
    Expr::Composite { op: o.to_string(), operands }
}

fn item(e: Expr) -> SelectItem {
    SelectItem::UnnamedExpr(e)
}

fn aliased(e: Expr, alias: &str) -> SelectItem {
    SelectItem::ExprWithAlias { expr: e, alias: alias.to_string() }
}

fn factor(dotted: &str, alias: Option<&str>) -> TableFactor {
    TableFactor::Table { name: parts(dotted), alias: alias.map(String::from) }
}

fn table(dotted: &str) -> TableWithJoins {
    TableWithJoins { relation: factor(dotted, None), joins: vec![] }
}

fn table_as(dotted: &str, alias: &str) -> TableWithJoins {
    TableWithJoins { relation: factor(dotted, Some(alias)), joins: vec![] }
}

fn derived(q: Query, alias: &str, lateral: bool) -> TableWithJoins {
    TableWithJoins {
        relation: TableFactor::Derived { lateral, subquery: Box::new(q), alias: Some(alias.to_string()) },
        joins: vec![],
    }
}

fn select(projection: Vec<SelectItem>, from: Vec<TableWithJoins>, selection: Option<Expr>) -> Select {
    Select { projection, from, selection, group_by: vec![], having: None }
}

fn query(s: Select) -> Query {
    Query { with: vec![], body: Box::new(SetExpr::Select(Box::new(s))), order_by: vec![] }
}

fn stmt(q: Query) -> Statement {
    Statement::Query(Box::new(q))
}

fn col(name: &str, source: &str) -> ColumnRef {
    ColumnRef { name: name.to_string(), source_name: source.to_string() }
}

fn sorted(set: &ColumnSet) -> Vec<(String, String)> {
    let mut v: Vec<(String, String)> =
        set.to_vec().into_iter().map(|c| (c.source_name, c.name)).collect();
    v.sort();
    v
}

fn pairs(items: &[(&str, &str)]) -> Vec<(String, String)> {
    let mut v: Vec<(String, String)> =
        items.iter().map(|(s, n)| (s.to_string(), n.to_string())).collect();
    v.sort();
    v
}

// ---------- column lookup ----------

#[test]
fn statement_is_left_as_it_was() {
    // SELECT id FROM users
    let mut sql = stmt(query(select(vec![item(ident("id"))], vec![table("users")], None)));
    let scopes = resolve(&mut sql, shop()).expect("resolve");
    let Statement::Query(q) = &sql else { panic!("query expected") };
    let SetExpr::Select(s) = &*q.body else { panic!("select expected") };
    match &s.projection[0] {
        SelectItem::UnnamedExpr(Expr::Identifier(name)) => assert_eq!(name, "id"),
        _ => panic!("expected the reference as it was written"),
    }
    // The source the reference resolved to is reported through the scope.
    assert_eq!(sorted(&scopes[1].selected_columns[0].dependencies), pairs(&[("users", "id")]));
}

#[test]
fn two_sources_with_the_column_are_ambiguous() {
    // SELECT id FROM users, orders
    let mut sql = stmt(query(select(vec![item(ident("id"))], vec![table("users"), table("orders")], None)));
    match resolve(&mut sql, shop()) {
        Err(ResolutionError::AmbiguousColumn(name)) => assert_eq!(name, "id"),
        other => panic!("expected AmbiguousColumn, got {:?}", other.err()),
    }
}

#[test]
fn qualifier_picks_one_of_two_sources() {
    // SELECT orders.id FROM users, orders
    let mut sql =
        stmt(query(select(vec![item(compound("orders.id"))], vec![table("users"), table("orders")], None)));
    let scopes = resolve(&mut sql, shop()).expect("resolve");
    assert_eq!(sorted(&scopes[1].selected_columns[0].dependencies), pairs(&[("orders", "id")]));
}

#[test]
fn alias_names_the_source() {
    // SELECT u.name FROM users u
    let mut sql = stmt(query(select(vec![item(compound("u.name"))], vec![table_as("users", "u")], None)));
    let scopes = resolve(&mut sql, shop()).expect("resolve");
    assert!(scopes[1].sources.contains_key("u"));
    assert!(!scopes[1].sources.contains_key("users"));
    assert_eq!(sorted(&scopes[1].selected_columns[0].dependencies), pairs(&[("u", "name")]));
}

#[test]
fn column_not_found_names_the_column() {
    // SELECT nope FROM users
    let mut sql = stmt(query(select(vec![item(ident("nope"))], vec![table("users")], None)));
    match resolve(&mut sql, shop()) {
        Err(ResolutionError::ColumnNotFound(name)) => assert_eq!(name, "nope"),
        other => panic!("expected ColumnNotFound, got {:?}", other.err()),
    }
}

#[test]
fn innermost_scope_decides_the_lookup() {
    // SELECT (SELECT id FROM orders) AS n FROM users
    let inner = query(select(vec![item(ident("id"))], vec![table("orders")], None));
    let mut sql = stmt(query(select(
        vec![aliased(Expr::Subquery(Box::new(inner)), "n")],
        vec![table("users")],
        None,
    )));
    let scopes = resolve(&mut sql, shop()).expect("resolve");
    assert_eq!(scopes.len(), 3);
    assert!(matches!(scopes[2].scope_type, ScopeType::Subquery));
    assert_eq!(scopes[2].parent, 1);
    assert_eq!(sorted(&scopes[1].selected_columns[0].dependencies), pairs(&[("orders", "id")]));
}

#[test]
fn correlation_reaches_through_nested_subqueries() {
    // SELECT name FROM users
    // WHERE EXISTS (SELECT total FROM orders
    //               WHERE EXISTS (SELECT user_id FROM logins WHERE logins.user_id = users.id))
    let deepest = query(select(
        vec![item(ident("user_id"))],
        vec![table("logins")],
        Some(op("=", vec![compound("logins.user_id"), compound("users.id")])),
    ));
    let middle = query(select(
        vec![item(ident("total"))],
        vec![table("orders")],
        Some(Expr::Exists(Box::new(deepest))),
    ));
    let mut sql = stmt(query(select(
        vec![item(ident("name"))],
        vec![table("users")],
        Some(Expr::Exists(Box::new(middle))),
    )));
    let scopes = resolve(&mut sql, shop()).expect("resolve");
    assert_eq!(scopes.len(), 4);
    assert_eq!(scopes[3].parent, 2);
    assert_eq!(scopes[2].parent, 1);
    assert_eq!(
        sorted(&scopes[1].filter_columns),
        pairs(&[("orders", "total"), ("logins", "user_id"), ("users", "id")])
    );
    assert_eq!(
        sorted(&scopes[2].filter_columns),
        pairs(&[("logins", "user_id"), ("users", "id")])
    );
}

#[test]
fn dependencies_propagate_through_a_subquery_boundary() {
    // SELECT (SELECT total FROM orders o WHERE o.user_id = u.id) AS spent FROM users u
    let inner = query(select(
        vec![item(ident("total"))],
        vec![table_as("orders", "o")],
        Some(op("=", vec![compound("o.user_id"), compound("u.id")])),
    ));
    let mut sql = stmt(query(select(
        vec![aliased(Expr::Subquery(Box::new(inner)), "spent")],
        vec![table_as("users", "u")],
        None,
    )));
    let scopes = resolve(&mut sql, shop()).expect("resolve");
    let spent = &scopes[1].selected_columns[0];
    assert_eq!(spent.name, "spent");
    assert_eq!(
        sorted(&spent.dependencies),
        pairs(&[("o", "total"), ("o", "user_id"), ("u", "id")])
    );
}

// ---------- derived tables ----------

#[test]
fn derived_table_does_not_see_outer_sources() {
    // SELECT d.x FROM users u, (SELECT u.id AS x) d
    let inner = query(select(vec![aliased(compound("u.id"), "x")], vec![], None));
    let mut sql = stmt(query(select(
        vec![item(compound("d.x"))],
        vec![table_as("users", "u"), derived(inner, "d", false)],
        None,
    )));
    match resolve(&mut sql, shop()) {
        Err(ResolutionError::ColumnNotFound(name)) => assert_eq!(name, "id"),
        other => panic!("expected ColumnNotFound, got {:?}", other.err()),
    }
}

#[test]
fn lateral_derived_table_sees_earlier_sources() {
    // SELECT d.x FROM users u, LATERAL (SELECT u.id AS x) d
    let inner = query(select(vec![aliased(compound("u.id"), "x")], vec![], None));
    let mut sql = stmt(query(select(
        vec![item(compound("d.x"))],
        vec![table_as("users", "u"), derived(inner, "d", true)],
        None,
    )));
    let scopes = resolve(&mut sql, shop()).expect("resolve");
    assert!(matches!(scopes[2].scope_type, ScopeType::DerivedTable));
    assert!(scopes[2].allow_lateral);
    match scopes[1].sources.get("d").expect("derived source") {
        ResolvedSource::Derived(d) => {
            assert_eq!(d.scope_id, 2);
            assert_eq!(d.columns, vec!["x".to_string()]);
        }
        _ => panic!("expected a derived source"),
    }
    assert_eq!(sorted(&scopes[1].selected_columns[0].dependencies), pairs(&[("d", "x")]));
    assert_eq!(sorted(&scopes[2].selected_columns[0].dependencies), pairs(&[("u", "id")]));
}

// ---------- roles ----------

#[test]
fn roles_are_tagged_per_clause() {
    // SELECT u.name FROM users u JOIN orders o ON o.user_id = u.id
    // WHERE o.total > 1 GROUP BY u.name HAVING u.name <> 'x' ORDER BY u.name
    let join = Join {
        relation: factor("orders", Some("o")),
        on: Some(op("=", vec![compound("o.user_id"), compound("u.id")])),
    };
    let s = Select {
        projection: vec![item(compound("u.name"))],
        from: vec![TableWithJoins { relation: factor("users", Some("u")), joins: vec![join] }],
        selection: Some(op(">", vec![compound("o.total"), lit("1")])),
        group_by: vec![compound("u.name")],
        having: Some(op("<>", vec![compound("u.name"), lit("'x'")])),
    };
    let mut sql = stmt(Query {
        with: vec![],
        body: Box::new(SetExpr::Select(Box::new(s))),
        order_by: vec![compound("u.name")],
    });
    let scopes = resolve(&mut sql, shop()).expect("resolve");
    let root = &scopes[1];
    assert_eq!(root.sources.len(), 2);
    assert_eq!(sorted(&root.join_columns), pairs(&[("o", "user_id"), ("u", "id")]));
    assert_eq!(sorted(&root.filter_columns), pairs(&[("o", "total"), ("u", "name")]));
    assert_eq!(sorted(&root.group_by_columns), pairs(&[("u", "name")]));
    assert_eq!(sorted(&root.sort_columns), pairs(&[("u", "name")]));
}

// ---------- set operations ----------

#[test]
fn set_operation_takes_first_branch_names_and_both_dependencies() {
    // SELECT id FROM users UNION SELECT user_id FROM logins
    let left = select(vec![item(ident("id"))], vec![table("users")], None);
    let right = select(vec![item(ident("user_id"))], vec![table("logins")], None);
    let mut sql = stmt(Query {
        with: vec![],
        body: Box::new(SetExpr::SetOperation {
            left: Box::new(SetExpr::Select(Box::new(left))),
            right: Box::new(SetExpr::Select(Box::new(right))),
        }),
        order_by: vec![],
    });
    let scopes = resolve(&mut sql, shop()).expect("resolve");
    assert_eq!(scopes.len(), 4);
    assert!(matches!(scopes[2].scope_type, ScopeType::SetOpBranch));
    assert!(matches!(scopes[3].scope_type, ScopeType::SetOpBranch));
    assert_eq!(scopes[1].children, vec![2, 3]);
    assert_eq!(scopes[1].sources.len(), 0);
    let out = &scopes[1].selected_columns;
    assert_eq!(out.len(), 1);
    assert_eq!(out[0].name, "id");
    assert_eq!(sorted(&out[0].dependencies), pairs(&[("users", "id"), ("logins", "user_id")]));
}

#[test]
fn parenthesised_query_hands_its_columns_up() {
    // (SELECT name FROM users)
    let inner = query(select(vec![item(ident("name"))], vec![table("users")], None));
    let mut sql = stmt(Query { with: vec![], body: Box::new(SetExpr::Query(Box::new(inner))), order_by: vec![] });
    let scopes = resolve(&mut sql, shop()).expect("resolve");
    assert_eq!(scopes.len(), 3);
    assert!(matches!(scopes[2].scope_type, ScopeType::Subquery));
    assert_eq!(scopes[1].selected_columns.len(), 1);
    assert_eq!(scopes[1].selected_columns[0].name, "name");
    assert_eq!(sorted(&scopes[1].selected_columns[0].dependencies), pairs(&[("users", "name")]));
}

// ---------- wildcards ----------

#[test]
fn wildcard_takes_every_column_of_every_source() {
    // SELECT * FROM users u, logins
    let mut sql = stmt(query(select(
        vec![SelectItem::Wildcard],
        vec![table_as("users", "u"), table("logins")],
        None,
    )));
    let scopes = resolve(&mut sql, shop()).expect("resolve");
    let names: Vec<&str> = scopes[1].selected_columns.iter().map(|c| c.name.as_str()).collect();
    assert_eq!(names, vec!["id", "name", "email", "user_id"]);
    assert_eq!(sorted(&scopes[1].selected_columns[3].dependencies), pairs(&[("logins", "user_id")]));
}

#[test]
fn qualified_wildcard_takes_the_named_source_only() {
    // SELECT l.* FROM users, logins l
    let mut sql = stmt(query(select(
        vec![SelectItem::QualifiedWildcard(parts("l"))],
        vec![table("users"), table_as("logins", "l")],
        None,
    )));
    let scopes = resolve(&mut sql, shop()).expect("resolve");
    let names: Vec<&str> = scopes[1].selected_columns.iter().map(|c| c.name.as_str()).collect();
    assert_eq!(names, vec!["user_id"]);
}

#[test]
fn qualified_wildcard_without_source_is_source_not_found() {
    // SELECT x.* FROM users
    let mut sql = stmt(query(select(vec![SelectItem::QualifiedWildcard(parts("x"))], vec![table("users")], None)));
    match resolve(&mut sql, shop()) {
        Err(ResolutionError::SourceNotFound(q)) => assert_eq!(q, vec!["x".to_string()]),
        other => panic!("expected SourceNotFound, got {:?}", other.err()),
    }
}

#[test]
fn unaliased_expression_is_named_question_column() {
    // SELECT 1, COUNT(id) FROM users
    let count = Expr::Function(treebolt::ast::Function { name: parts("COUNT"), args: vec![ident("id")], over: vec![] });
    let mut sql = stmt(query(select(vec![item(lit("1")), item(count)], vec![table("users")], None)));
    let scopes = resolve(&mut sql, shop()).expect("resolve");
    assert_eq!(scopes[1].selected_columns[0].name, "?column?");
    assert!(scopes[1].selected_columns[0].dependencies.to_vec().is_empty());
    assert_eq!(scopes[1].selected_columns[1].name, "COUNT");
    assert_eq!(sorted(&scopes[1].selected_columns[1].dependencies), pairs(&[("users", "id")]));
}

// ---------- errors ----------

#[test]
fn non_query_statement_is_unsupported_with_the_statement_type_name() {
    let mut sql = Statement::Other("Insert".to_string());
    match resolve(&mut sql, shop()) {
        Err(ResolutionError::UnsupportedQueryType(name)) => assert_eq!(name, "sqlparser::ast::Statement"),
        other => panic!("expected UnsupportedQueryType, got {:?}", other.err()),
    }
}

#[test]
fn unsupported_table_factor_names_its_kind() {
    let mut sql = stmt(query(select(
        vec![item(lit("1"))],
        vec![TableWithJoins { relation: TableFactor::Unsupported("MatchRecognize".to_string()), joins: vec![] }],
        None,
    )));
    match resolve(&mut sql, shop()) {
        Err(ResolutionError::UnsupportedTableFactor(kind)) => assert_eq!(kind, "MatchRecognize"),
        other => panic!("expected UnsupportedTableFactor, got {:?}", other.err()),
    }
}

#[test]
fn table_not_found_holds_the_name_parts() {
    let mut sql = stmt(query(select(vec![item(lit("1"))], vec![table("a.b")], None)));
    match resolve(&mut sql, shop()) {
        Err(ResolutionError::TableNotFound(n)) => assert_eq!(n, parts("a.b")),
        other => panic!("expected TableNotFound, got {:?}", other.err()),
    }
}

#[test]
fn cte_shadows_a_table_of_the_same_name() {
    // WITH users AS (SELECT 1 AS k) SELECT k FROM users
    let cte_body = query(select(vec![aliased(lit("1"), "k")], vec![], None));
    let mut sql = stmt(Query {
        with: vec![treebolt::ast::Cte { alias: "users".to_string(), query: Box::new(cte_body) }],
        body: Box::new(SetExpr::Select(Box::new(select(vec![item(ident("k"))], vec![table("users")], None)))),
        order_by: vec![],
    });
    let scopes = resolve(&mut sql, shop()).expect("resolve");
    assert!(matches!(scopes[2].scope_type, ScopeType::Cte));
    assert_eq!(scopes[1].ctes.len(), 1);
    assert_eq!(scopes[1].ctes[0].name, "users");
    match scopes[1].sources.get("users").expect("source") {
        ResolvedSource::Cte(c) => {
            assert_eq!(c.scope_id, 2);
            assert_eq!(c.columns, vec!["k".to_string()]);
        }
        _ => panic!("expected the CTE"),
    }
}

// ---------- scope and accumulator bookkeeping ----------

#[test]
fn context_starts_with_the_boundary_scope() {
    let resolver = Resolver::new(shop(), options());
    let cx = ResolutionContext::new(&resolver);
    assert_eq!(cx.scopes.len(), 1);
    assert!(matches!(cx.scopes[0].scope_type, ScopeType::Boundary));
    assert_eq!(cx.scopes[0].parent, 0);
    assert_eq!(cx.active_scope, 0);
    assert_eq!(cx.visible_scopes, vec![0]);
    assert!(cx.accumulator_stack.is_empty());
}

#[test]
fn branch_then_exit_returns_to_the_parent() {
    let resolver = Resolver::new(shop(), options());
    let mut cx = ResolutionContext::new(&resolver);
    cx.branch_scope(ScopeType::Subquery, true);
    assert_eq!(cx.active_scope, 1);
    assert_eq!(cx.visible_scopes, vec![0, 1]);
    cx.branch_scope(ScopeType::DerivedTable, false);
    assert_eq!(cx.visible_scopes, vec![0, 1, 2]);
    assert_eq!(cx.active_scope().parent, 1);
    assert_eq!(cx.exit_scope(), 2);
    assert_eq!(cx.exit_scope(), 1);
    assert_eq!(cx.active_scope, 0);
    assert_eq!(cx.visible_scopes, vec![0]);
    assert_eq!(cx.scopes.len(), 3);
    assert_eq!(cx.scopes[0].children, vec![1]);
    assert_eq!(cx.scopes[1].children, vec![2]);
    assert!(!cx.scopes[2].allow_lateral);
}

#[test]
fn accumulator_round_trip_collects_what_was_recorded() {
    let resolver = Resolver::new(shop(), options());
    let mut cx = ResolutionContext::new(&resolver);
    // Recording with no open accumulator changes nothing.
    cx.record_column(col("id", "users"));
    assert!(cx.accumulator_stack.is_empty());

    cx.push_accumulator();
    cx.record_column(col("id", "users"));
    cx.push_accumulator();
    cx.record_column(col("total", "orders"));
    cx.record_column(col("total", "orders"));
    let inner = cx.pop_accumulator();
    assert_eq!(sorted(&inner), pairs(&[("orders", "total")]));
    let outer = cx.pop_accumulator();
    assert_eq!(sorted(&outer), pairs(&[("users", "id"), ("orders", "total")]));
    assert!(cx.accumulator_stack.is_empty());
}

#[test]
fn column_set_holds_each_reference_once() {
    let mut s = ColumnSet::new();
    assert!(s.insert(col("a", "t")));
    assert!(!s.insert(col("a", "t")));
    assert!(s.insert(col("a", "u")));
    assert!(s.contains(&col("a", "u")));
    assert!(!s.contains(&col("b", "t")));
    let mut other = ColumnSet::new();
    other.insert(col("b", "t"));
    other.insert(col("a", "t"));
    s.extend(&other);
    assert_eq!(s.to_vec().len(), 3);
    assert_eq!(sorted(&s.duplicate()), pairs(&[("t", "a"), ("u", "a"), ("t", "b")]));
}

#[test]
fn source_map_answers_the_first_entry_of_a_name() {
    let mut m = SourceMap::new();
    assert_eq!(m.len(), 0);
    assert!(m.get("t").is_none());
    m.push(
        "t".to_string(),
        ResolvedSource::Table(TableSource { ident: parts("a.t"), columns: vec!["x".to_string()] }),
    );
    m.push(
        "t".to_string(),
        ResolvedSource::Table(TableSource { ident: parts("b.t"), columns: vec!["y".to_string()] }),
    );
    assert_eq!(m.len(), 2);
    assert!(m.contains_key("t"));
    assert!(!m.contains_key("u"));
    match m.get("t") {
        Some(ResolvedSource::Table(t)) => assert_eq!(t.ident, parts("a.t")),
        _ => panic!("expected the first table"),
    }
}

// ---------- table functions and pivots ----------

#[test]
fn table_function_registers_its_alias_columns() {
    // SELECT n.v FROM users u, LATERAL UNNEST(u.id) AS n(v)
    let unnest = TableFactor::Function {
        name: parts("UNNEST"),
        args: vec![compound("u.id")],
        alias: Some("n".to_string()),
        columns: vec!["v".to_string()],
    };
    let mut sql = stmt(query(select(
        vec![item(compound("n.v"))],
        vec![table_as("users", "u"), TableWithJoins { relation: unnest, joins: vec![] }],
        None,
    )));
    let scopes = resolve(&mut sql, shop()).expect("resolve");
    match scopes[1].sources.get("n").expect("function source") {
        ResolvedSource::Function(f) => {
            assert_eq!(f.name, parts("UNNEST"));
            assert_eq!(f.columns, vec!["v".to_string()]);
        }
        _ => panic!("expected a function source"),
    }
    assert_eq!(sorted(&scopes[1].selected_columns[0].dependencies), pairs(&[("n", "v")]));
}

#[test]
fn table_function_argument_must_resolve() {
    // SELECT 1 FROM generate(missing) g
    let f = TableFactor::Function {
        name: parts("generate"),
        args: vec![ident("missing")],
        alias: Some("g".to_string()),
        columns: vec![],
    };
    let mut sql = stmt(query(select(vec![item(lit("1"))], vec![TableWithJoins { relation: f, joins: vec![] }], None)));
    match resolve(&mut sql, shop()) {
        Err(ResolutionError::ColumnNotFound(name)) => assert_eq!(name, "missing"),
        other => panic!("expected ColumnNotFound, got {:?}", other.err()),
    }
}

#[test]
fn pivot_registers_its_table_and_resolves_its_expressions() {
    // SELECT total FROM orders PIVOT (SUM(total) FOR user_id IN (1, 2))
    let sum = Expr::Function(treebolt::ast::Function { name: parts("SUM"), args: vec![ident("total")], over: vec![] });
    let pivot = TableFactor::Pivot { table: Box::new(factor("orders", None)), exprs: vec![sum, ident("user_id")] };
    let mut sql = stmt(query(select(
        vec![item(ident("total"))],
        vec![TableWithJoins { relation: pivot, joins: vec![] }],
        None,
    )));
    let scopes = resolve(&mut sql, shop()).expect("resolve");
    assert_eq!(scopes[1].sources.len(), 1);
    assert!(scopes[1].sources.contains_key("orders"));
}

#[test]
fn references_inside_subqueries_resolve_innermost_first() {
    // SELECT name FROM users WHERE EXISTS (SELECT 1 FROM orders WHERE user_id = id)
    let inner = query(select(
        vec![item(lit("1"))],
        vec![table("orders")],
        Some(op("=", vec![ident("user_id"), ident("id")])),
    ));
    let mut sql = stmt(query(select(
        vec![item(ident("name"))],
        vec![table("users")],
        Some(Expr::Exists(Box::new(inner))),
    )));
    let scopes = resolve(&mut sql, shop()).expect("resolve");
    assert_eq!(sorted(&scopes[1].filter_columns), pairs(&[("orders", "user_id"), ("orders", "id")]));
    assert_eq!(sorted(&scopes[2].filter_columns), pairs(&[("orders", "user_id"), ("orders", "id")]));
}

// ---------- expressions, resolved in a context ----------

fn users_context_test(check: impl FnOnce(&mut ResolutionContext<'_, InMemorySchema>)) {
    let resolver = Resolver::new(shop(), options());
    let mut cx = ResolutionContext::new(&resolver);
    cx.branch_scope(ScopeType::Root, false);
    cx.add_source(
        "users".to_string(),
        ResolvedSource::Table(TableSource { ident: parts("users"), columns: vec!["id".to_string(), "name".to_string()] }),
    );
    check(&mut cx);
}

#[test]
fn resolving_an_expression_leaves_it_and_the_arena_as_they_were() {
    users_context_test(|cx| {
        let mut e = op("=", vec![ident("id"), lit("1")]);
        cx.push_accumulator();
        cx.resolve_expr(&mut e).expect("resolve");
        assert!(matches!(&e, Expr::Composite { operands, .. } if matches!(&operands[0], Expr::Identifier(n) if n == "id")));
        assert_eq!(cx.scopes.len(), 2);
        assert_eq!(sorted(&cx.pop_accumulator()), pairs(&[("users", "id")]));
    });
}

#[test]
fn first_failing_operand_decides_the_error() {
    users_context_test(|cx| {
        let mut es = vec![ident("id"), ident("missing"), ident("other")];
        match cx.resolve_expr_slice(&mut es) {
            Err(ResolutionError::ColumnNotFound(n)) => assert_eq!(n, "missing"),
            other => panic!("expected ColumnNotFound, got {:?}", other.err()),
        }
        assert_eq!(cx.scopes.len(), 2);
    });
}

#[test]
fn a_subquery_expression_opens_a_subquery_scope() {
    users_context_test(|cx| {
        let inner = query(select(vec![item(ident("total"))], vec![table("orders")], None));
        let mut e = Expr::Subquery(Box::new(inner));
        cx.resolve_expr(&mut e).expect("resolve");
        assert_eq!(cx.scopes.len(), 3);
        assert!(matches!(cx.scopes[2].scope_type, ScopeType::Subquery));
        assert_eq!(cx.scopes[2].parent, 1);
    });
}

// ---------- CTE bindings and error order ----------

#[test]
fn cte_binding_names_its_scope_and_output_columns() {
    // WITH c AS (SELECT id AS k, name FROM users) SELECT k FROM c
    let inner = query(select(vec![aliased(ident("id"), "k"), item(ident("name"))], vec![table("users")], None));
    let mut outer = query(select(vec![item(ident("k"))], vec![table("c")], None));
    outer.with = vec![Cte { alias: "c".to_string(), query: Box::new(inner) }];
    let mut sql = stmt(outer);
    let scopes = resolve(&mut sql, shop()).unwrap();
    assert_eq!(scopes[1].ctes.len(), 1);
    let b = &scopes[1].ctes[0];
    assert_eq!(b.name, "c");
    assert_eq!(scopes[b.scope_id].scope_type, ScopeType::Cte);
    assert_eq!(scopes[b.scope_id].parent, 1);
    assert_eq!(b.columns, vec!["k".to_string(), "name".to_string()]);
    assert_eq!(sorted(&scopes[1].selected_columns[0].dependencies), pairs(&[("c", "k")]));
}

#[test]
fn select_over_ctes_alone_needs_no_schema() {
    // WITH c AS (SELECT 1 AS x) SELECT x FROM c, with an empty schema
    let inner = query(select(vec![aliased(lit("1"), "x")], vec![], None));
    let mut outer = query(select(vec![item(ident("x"))], vec![table("c")], None));
    outer.with = vec![Cte { alias: "c".to_string(), query: Box::new(inner) }];
    let mut sql = stmt(outer);
    let scopes = resolve(&mut sql, InMemorySchema::new(vec![])).unwrap();
    assert_eq!(scopes.len(), 3);
    assert_eq!(scopes[1].selected_columns[0].name, "x");
}

#[test]
fn unknown_table_is_reported_before_unknown_columns() {
    // SELECT missing FROM nowhere
    let mut sql = stmt(query(select(vec![item(ident("missing"))], vec![table("nowhere")], None)));
    match resolve(&mut sql, shop()) {
        Err(ResolutionError::TableNotFound(parts)) => assert_eq!(parts, vec!["nowhere".to_string()]),
        other => panic!("expected TableNotFound, got {:?}", other.err()),
    }
}

#[test]
fn select_without_nested_queries_opens_only_the_root_scope() {
    // SELECT id, name FROM users
    let mut sql = stmt(query(select(vec![item(ident("id")), item(ident("name"))], vec![table("users")], None)));
    let scopes = resolve(&mut sql, shop()).unwrap();
    assert_eq!(scopes.len(), 2);
    assert_eq!(scopes[0].scope_type, ScopeType::Boundary);
    assert_eq!(scopes[1].scope_type, ScopeType::Root);
}

#[test]
fn chained_ctes_resolve_without_schema() {
    // WITH a AS (SELECT 1 AS x), b AS (SELECT * FROM a) SELECT x FROM b, with an empty schema
    let qa = query(select(vec![aliased(lit("1"), "x")], vec![], None));
    let qb = query(select(vec![SelectItem::Wildcard], vec![table("a")], None));
    let mut outer = query(select(vec![item(ident("x"))], vec![table("b")], None));
    outer.with = vec![
        Cte { alias: "a".to_string(), query: Box::new(qa) },
        Cte { alias: "b".to_string(), query: Box::new(qb) },
    ];
    let mut sql = stmt(outer);
    let scopes = resolve(&mut sql, InMemorySchema::new(vec![])).unwrap();
    assert_eq!(scopes[1].ctes.len(), 2);
    assert_eq!(scopes[1].ctes[1].columns, vec!["x".to_string()]);
    assert_eq!(sorted(&scopes[1].selected_columns[0].dependencies), pairs(&[("b", "x")]));
}

#[test]
fn in_subquery_with_failing_left_operand_opens_no_scope() {
    users_context_test(|cx| {
        let inner = query(select(vec![item(lit("1"))], vec![], None));
        let mut e = Expr::InSubquery { expr: Box::new(ident("missing")), subquery: Box::new(inner) };
        match cx.resolve_expr(&mut e) {
            Err(ResolutionError::ColumnNotFound(n)) => assert_eq!(n, "missing"),
            other => panic!("expected ColumnNotFound, got {:?}", other.err()),
        }
        assert_eq!(cx.scopes.len(), 2);
    });
}

#[test]
fn in_subquery_opens_a_correlated_subquery_scope() {
    users_context_test(|cx| {
        // id IN (SELECT user_id FROM orders WHERE orders.user_id = users.id)
        let inner = query(select(
            vec![item(ident("user_id"))],
            vec![table("orders")],
            Some(op("=", vec![compound("orders.user_id"), compound("users.id")])),
        ));
        let mut e = Expr::InSubquery { expr: Box::new(ident("id")), subquery: Box::new(inner) };
        cx.push_accumulator();
        cx.resolve_expr(&mut e).expect("resolve");
        assert_eq!(cx.scopes.len(), 3);
        assert!(matches!(cx.scopes[2].scope_type, ScopeType::Subquery));
        assert_eq!(cx.scopes[2].parent, 1);
        assert!(cx.scopes[2].allow_lateral);
        assert_eq!(cx.scopes[1].children, vec![2]);
        assert_eq!(cx.active_scope, 1);
        assert_eq!(
            sorted(&cx.pop_accumulator()),
            pairs(&[("users", "id"), ("orders", "user_id")])
        );
    });
}

#[test]
fn scopes_inside_a_union_branch_are_opened_under_it() {
    // SELECT id FROM (SELECT id FROM users) d
    // UNION SELECT user_id FROM logins WHERE EXISTS (SELECT 1 FROM orders WHERE orders.user_id = logins.user_id)
    let left = select(
        vec![item(ident("id"))],
        vec![derived(query(select(vec![item(ident("id"))], vec![table("users")], None)), "d", false)],
        None,
    );
    let exists = query(select(
        vec![item(lit("1"))],
        vec![table("orders")],
        Some(op("=", vec![compound("orders.user_id"), compound("logins.user_id")])),
    ));
    let right = select(vec![item(ident("user_id"))], vec![table("logins")], Some(Expr::Exists(Box::new(exists))));
    let mut sql = stmt(Query {
        with: vec![],
        body: Box::new(SetExpr::SetOperation {
            left: Box::new(SetExpr::Select(Box::new(left))),
            right: Box::new(SetExpr::Select(Box::new(right))),
        }),
        order_by: vec![],
    });
    let scopes = resolve(&mut sql, shop()).expect("resolve");
    assert_eq!(scopes.len(), 6);
    assert!(matches!(scopes[2].scope_type, ScopeType::SetOpBranch));
    assert!(matches!(scopes[3].scope_type, ScopeType::DerivedTable));
    assert_eq!(scopes[3].parent, 2);
    assert!(!scopes[3].allow_lateral);
    assert!(matches!(scopes[4].scope_type, ScopeType::SetOpBranch));
    assert!(matches!(scopes[5].scope_type, ScopeType::Subquery));
    assert_eq!(scopes[5].parent, 4);
    assert_eq!(sorted(&scopes[5].filter_columns), pairs(&[("orders", "user_id"), ("logins", "user_id")]));
}

#[test]
fn outer_cte_is_visible_inside_a_derived_table() {
    // WITH t AS (SELECT 1 AS id) SELECT d.id FROM (SELECT id FROM t) d, with an empty schema
    let t = query(select(vec![aliased(lit("1"), "id")], vec![], None));
    let inner = query(select(vec![item(ident("id"))], vec![table("t")], None));
    let mut outer = query(select(vec![item(compound("d.id"))], vec![derived(inner, "d", false)], None));
    outer.with = vec![Cte { alias: "t".to_string(), query: Box::new(t) }];
    let mut sql = stmt(outer);
    let scopes = resolve(&mut sql, InMemorySchema::new(vec![])).expect("resolve");
    assert!(scopes.iter().any(|s| matches!(s.scope_type, ScopeType::Cte)));
    assert!(scopes.iter().any(|s| matches!(s.scope_type, ScopeType::DerivedTable)));
    assert_eq!(sorted(&scopes[1].selected_columns[0].dependencies), pairs(&[("d", "id")]));
}

#[test]
fn join_condition_sees_only_the_sources_before_it() {
    // SELECT 1 FROM users u JOIN orders o ON l.user_id = u.id JOIN logins l ON l.user_id = o.user_id
    let first = Join {
        relation: factor("orders", Some("o")),
        on: Some(op("=", vec![compound("l.user_id"), compound("u.id")])),
    };
    let second = Join {
        relation: factor("logins", Some("l")),
        on: Some(op("=", vec![compound("l.user_id"), compound("o.user_id")])),
    };
    let s = select(
        vec![item(lit("1"))],
        vec![TableWithJoins { relation: factor("users", Some("u")), joins: vec![first, second] }],
        None,
    );
    let mut sql = stmt(query(s));
    match resolve(&mut sql, shop()) {
        Err(ResolutionError::ColumnNotFound(name)) => assert_eq!(name, "user_id"),
        other => panic!("expected a failed lookup, got {:?}", other.map(|s| s.len())),
    }
}

#[test]
fn unqualified_join_column_is_not_ambiguous_with_a_later_source() {
    // SELECT 1 FROM orders o JOIN logins l ON total > 0 JOIN orders p ON p.id = o.id:
    // when the first condition is resolved only o provides `total`
    let first = Join { relation: factor("logins", Some("l")), on: Some(op(">", vec![ident("total"), lit("0")])) };
    let second = Join {
        relation: factor("orders", Some("p")),
        on: Some(op("=", vec![compound("p.id"), compound("o.id")])),
    };
    let s = select(
        vec![item(lit("1"))],
        vec![TableWithJoins { relation: factor("orders", Some("o")), joins: vec![first, second] }],
        None,
    );
    let mut sql = stmt(query(s));
    let scopes = resolve(&mut sql, shop()).expect("resolve");
    assert_eq!(sorted(&scopes[1].join_columns), pairs(&[("o", "total"), ("p", "id"), ("o", "id")]));
}

#[test]
fn cte_query_does_not_see_the_ctes_after_it() {
    // WITH a AS (SELECT id FROM users), users AS (SELECT 1 AS k) SELECT id FROM a:
    // inside `a`, `users` is still the base table
    let a = query(select(vec![item(ident("id"))], vec![table("users")], None));
    let users = query(select(vec![aliased(lit("1"), "k")], vec![], None));
    let mut outer = query(select(vec![item(ident("id"))], vec![table("a")], None));
    outer.with = vec![
        Cte { alias: "a".to_string(), query: Box::new(a) },
        Cte { alias: "users".to_string(), query: Box::new(users) },
    ];
    let mut sql = stmt(outer);
    let scopes = resolve(&mut sql, shop()).expect("resolve");
    assert!(matches!(scopes[2].scope_type, ScopeType::Cte));
    match scopes[2].sources.get("users").expect("source") {
        ResolvedSource::Table(t) => assert_eq!(t.ident, vec!["users".to_string()]),
        _ => panic!("expected the base table"),
    }
    match scopes[1].sources.get("a").expect("source") {
        ResolvedSource::Cte(c) => assert_eq!(c.scope_id, 2),
        _ => panic!("expected the CTE"),
    }
}

#[test]
fn cte_declared_inside_a_derived_table_shadows_the_outer_one() {
    // WITH t AS (SELECT 1 AS id) SELECT d.v FROM (WITH t AS (SELECT 2 AS v) SELECT v FROM t) d
    let outer_t = query(select(vec![aliased(lit("1"), "id")], vec![], None));
    let inner_t = query(select(vec![aliased(lit("2"), "v")], vec![], None));
    let mut inner = query(select(vec![item(ident("v"))], vec![table("t")], None));
    inner.with = vec![Cte { alias: "t".to_string(), query: Box::new(inner_t) }];
    let mut outer = query(select(vec![item(compound("d.v"))], vec![derived(inner, "d", false)], None));
    outer.with = vec![Cte { alias: "t".to_string(), query: Box::new(outer_t) }];
    let mut sql = stmt(outer);
    let scopes = resolve(&mut sql, InMemorySchema::new(vec![])).expect("resolve");
    let d = scopes.iter().position(|s| matches!(s.scope_type, ScopeType::DerivedTable)).expect("derived scope");
    match scopes[d].sources.get("t").expect("source") {
        ResolvedSource::Cte(c) => {
            assert_eq!(scopes[c.scope_id].parent, d);
            assert_eq!(c.columns, vec!["v".to_string()]);
        }
        _ => panic!("expected the inner CTE"),
    }
}

#[test]
fn derived_table_inside_a_derived_table_exposes_its_output_names() {
    // SELECT o.x FROM (SELECT i.x FROM (SELECT u.id AS x FROM users u) i) o
    let innermost = query(select(vec![aliased(compound("u.id"), "x")], vec![table_as("users", "u")], None));
    let middle = query(select(vec![item(compound("i.x"))], vec![derived(innermost, "i", false)], None));
    let mut sql = stmt(query(select(vec![item(compound("o.x"))], vec![derived(middle, "o", false)], None)));
    let scopes = resolve(&mut sql, shop()).expect("resolve");
    let derived_scopes: Vec<usize> = (0..scopes.len())
        .filter(|&k| matches!(scopes[k].scope_type, ScopeType::DerivedTable))
        .collect();
    assert_eq!(derived_scopes.len(), 2);
    let outer = derived_scopes[0];
    match scopes[outer].sources.get("i").expect("source") {
        ResolvedSource::Derived(d) => {
            assert_eq!(scopes[d.scope_id].parent, outer);
            assert_eq!(d.columns, vec!["x".to_string()]);
        }
        _ => panic!("expected the inner derived table"),
    }
    assert_eq!(sorted(&scopes[1].selected_columns[0].dependencies), pairs(&[("o", "x")]));
}
