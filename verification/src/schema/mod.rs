use vstd::prelude::*;

verus! {

/// The columns of one table, as a schema provider reports them.
pub struct TableSchema {
    pub columns: Vec<String>,
}

/// The source of truth for table schemas.
///
/// `ident` holds the parts of a possibly multi-part table name, such as
/// `["platinum", "order_master_bi"]` for `platinum.order_master_bi`.
/// Implementors answer `None` for a table they do not know.
pub trait SchemaProvider {
    fn get_schema(&self, ident: &Vec<String>) -> Option<TableSchema>;
}

} // verus!
