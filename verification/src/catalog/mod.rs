//! The versioned catalog and the content-addressed graph of file contents.
pub mod account_laws;
pub mod batch;
pub mod batch_laws;
pub mod claims;
pub mod dag;
pub mod dag_bind;
pub mod dag_leaves;
pub mod dag_patch;
pub mod dag_reach;
pub mod dag_read;
pub mod ddl;
pub mod graph;
pub mod ids;
pub mod laws;
pub mod model;
pub mod names;
pub mod node;
pub mod node_laws;
pub mod publication_laws;
pub mod publish;
pub mod records;
pub mod recovery;
pub mod reference_store;
pub mod reopen;
pub mod roots;
pub mod row_laws;
pub mod rules;
pub mod sqlite_catalog;
pub mod store_laws;
pub mod types;
pub mod write_txn;
pub mod writing_laws;
