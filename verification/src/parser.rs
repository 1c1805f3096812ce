use vstd::prelude::*;

verus! {

/// The query descriptor the engine consumes. The SQL text itself is
/// parsed by the front-end; the engine never sees it. Identifiers and
/// literals are carried as their bytes.
#[derive(Debug, Clone, PartialEq, Eq)]
pub struct QueryDetails {
    pub qtype: QueryType,
    pub stmt: Statement,
}

#[derive(Debug, Clone, PartialEq, Eq)]
pub struct Statement {
    pub table_name: Vec<u8>,
    pub columns: Vec<Vec<u8>>,
    pub filter: Option<(Vec<u8>, Vec<u8>)>,
    pub is_star: Option<bool>,
}

/// The statement kinds the front-end can hand over: a CREATE TABLE text,
/// a SELECT (with or without COUNT), or a CREATE INDEX text carrying the
/// index name.
#[derive(Debug, Clone, PartialEq, Eq)]
pub enum QueryType {
    CREATE,
    SELECT(bool),
    INDEX(Vec<u8>),
}

} // verus!
