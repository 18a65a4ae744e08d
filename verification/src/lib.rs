//! A verified configuration engine: line-oriented `key = value` text is
//! classified and coerced, dotted keys are rebuilt into a nested typed tree,
//! the tree is validated against a declared schema of expected types, and the
//! result is rendered as JSON text.

pub mod json;
pub mod line;
pub mod parse;
pub mod schema;
pub mod validate;
pub mod value;
