//! Item collections: models that share a table with the models they belong to.
//!
//! A model can ask to be stored in the item collection of a parent model. The
//! root of such a collection has a table, and the rows of all models of the
//! collection stand there, in the partition of the root's row that they belong
//! to. This crate decides which tables there are and what is sent to the database,
//! and proves that what is read is what was written.
//!
//! - [`app`], [`db`], [`mapping`] and [`stmt`] hold the application's models, the
//!   tables, how the ones map to the others, and statements about them.
//! - [`build_schema`], [`collection_links`] and [`build_tables`] find the table of
//!   each model and build all tables. [`build_collection`], [`build_children`],
//!   [`build_table`] and [`build_mapping`] build a single one.
//!   [`schema_laws`], [`path_laws`], [`link_laws`], [`table_laws`], [`column_laws`],
//!   [`index_laws`], [`mapping_laws`], [`key_laws`], [`row_laws`], [`name_laws`],
//!   [`built_laws`] and [`whole_laws`] say what holds of every schema.
//! - [`attribute`], [`keys`] and [`records`] turn values into attributes of stored
//!   items and back, [`expression`] and [`key_expression`] write conditions on
//!   items, and [`table_plan`], [`insert_plan`] and [`query_plan`] make the requests.
//!   [`checked_plans`] makes them for whatever is asked for. [`attribute_laws`],
//!   [`form_laws`], [`expression_laws`], [`storage_laws`] and [`reading_laws`] say what
//!   holds of what is stored, and [`create_laws`], [`insert_laws`], [`lookup_laws`] and
//!   [`request_laws`] of the requests.
//! - [`connection`] finds the endpoint to connect to, and [`model_attribute`] reads
//!   the attribute by which a model asks for a collection.
//! - [`text`], [`delimited`], [`uuid_text`] and [`string_map`] serve the others.

pub mod app;
pub mod attribute;
pub mod attribute_laws;
pub mod build_children;
pub mod build_collection;
pub mod build_mapping;
pub mod build_schema;
pub mod build_table;
pub mod build_tables;
pub mod built_laws;
pub mod checked_plans;
pub mod collection_links;
pub mod column_laws;
pub mod connection;
pub mod create_laws;
pub mod db;
pub mod delimited;
pub mod expression;
pub mod expression_laws;
pub mod form_laws;
pub mod index_laws;
pub mod insert_laws;
pub mod insert_plan;
pub mod key_expression;
pub mod key_laws;
pub mod keys;
pub mod link_laws;
pub mod lookup_laws;
pub mod mapping;
pub mod mapping_laws;
pub mod model_attribute;
pub mod name_laws;
pub mod path_laws;
pub mod query_plan;
pub mod reading_laws;
pub mod records;
pub mod request_laws;
pub mod row_laws;
pub mod schema_laws;
pub mod stmt;
pub mod storage_laws;
pub mod string_map;
pub mod table_laws;
pub mod table_plan;
pub mod text;
pub mod uuid_text;
pub mod whole_laws;
