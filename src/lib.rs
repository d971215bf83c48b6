//! An in-memory relational engine: typed tables with a primary-key index,
//! databases that enforce foreign keys, readers that filter, order, project
//! and aggregate, and an executor for parsed SQL statements.
pub mod database;
pub mod executor;
pub mod functions;
pub mod index;
pub mod laws;
pub mod model;
pub mod order;
pub mod predicate;
pub mod reader;
pub mod registry;
pub mod row;
pub mod schema;
pub mod session;
pub mod table;
pub mod text;

pub use database::Database;
pub use reader::TableReader;
pub use registry::DatabaseRegistry;
pub use row::Row;
pub use session::Session;
pub use table::Table;
