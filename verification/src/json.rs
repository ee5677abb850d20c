//! JSON: values, the grammar of texts, reading and writing.

pub mod fault;
pub mod grammar;
pub mod laws;
pub mod parse;
pub mod render;
pub mod spelling;
pub mod value;

pub use parse::parse;
pub use render::escape_into;
pub use value::Value;
