//! Upserts into tables of columnar files.
//!
//! A source batch is matched by key against the rows of a table. Rows with a key of the source are
//! updated, and source rows that match nothing are inserted. Two strategies write the result:
//! copy-on-write rewrites the files in which rows changed, and merge-on-read writes the keys of the
//! old rows as deletes beside the new rows.
//!
//! - [`upsert`] holds the configuration, the results, and the planning of an upsert;
//! - [`planner`] resolves key columns, refuses duplicate keys and builds pruning predicates;
//! - [`matcher`] finds matching rows and the changes in them, with the keys of [`keys`];
//! - [`cow_executor`] and [`mor_executor`] turn the batches of target files into what is written;
//! - [`google_adc`] and [`bindings`] serve authentication and the Python module;
//! - [`columnar`] is the boundary to Arrow, over the models of [`model`];
//! - [`laws`], [`run_laws`] and [`planning_laws`] state what holds of an upsert as a whole, with the
//!   multisets of rows of [`contents`];
//! - [`schema_laws`], [`key_laws`], [`kind_laws`], [`predicate_laws`], [`matching_laws`] and
//!   [`binding_laws`] state what calls of the library give, over what goes in and what comes out;
//! - [`cow_laws`] and [`mor_laws`] do so of whole sequences of calls of the executors, with the merges
//!   of [`merge_laws`] and the tables of [`table_laws`].
pub mod binding_laws;
pub mod bindings;
pub mod columnar;
pub mod contents;
pub mod cow_executor;
pub mod cow_laws;
pub mod data_file;
pub mod error;
pub mod google_adc;
pub mod key_laws;
pub mod keys;
pub mod kind_laws;
pub mod laws;
pub mod matcher;
pub mod matching_laws;
pub mod merge_laws;
pub mod model;
pub mod mor_executor;
pub mod mor_laws;
pub mod planner;
pub mod planning_laws;
pub mod predicate;
pub mod predicate_laws;
pub mod run_laws;
pub mod schema;
pub mod schema_laws;
pub mod table_laws;
pub mod text;
pub mod upsert;
