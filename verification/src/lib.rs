//! Planning for the `auto_json_db` attribute: the attribute grammar, the
//! field lists it names, and the decisions that shape the generated code.

pub mod text;
pub mod attrs;
pub mod fields;
pub mod plan;

pub use plan::auto_json_db;
