//! The decisions of a Substrait runner: a program that registers S3-backed parquet
//! tables, executes a Substrait plan on them and writes the results back to S3.
//!
//! * [`config`] reads the settings of a run from four environment variables.
//! * [`binding`] reads the input bindings among them.
//! * [`table`] reads a table reference.
//! * [`location`] finds the bucket of a location.
//! * [`stores`] says which object stores are registered, and in what order.
//! * [`error`] holds the reasons for which a run is refused.
//! * [`text`] holds the text handling that these rest on.

pub mod binding;
pub mod config;
pub mod error;
pub mod location;
pub mod stores;
pub mod table;
pub mod text;
