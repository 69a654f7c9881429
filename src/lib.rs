pub mod error;
pub mod typ;
pub mod val;
pub mod store;
pub mod expr;
pub mod table;
pub mod util;
pub mod query;
