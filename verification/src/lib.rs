//! Join a primary delimited line stream ("source") against secondary
//! delimited files ("mapping files") on a key column, appending selected
//! columns from each matched mapping row to every source line.

pub mod cache;
pub mod config;
pub mod engine;
pub mod helpers;
pub mod mapping_file;
pub mod rows;
pub mod source_file;
