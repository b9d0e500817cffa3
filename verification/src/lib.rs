pub mod laws;
pub mod machine;
pub mod parse;
pub mod plan;
pub mod source;
pub mod tokens;
pub mod visit;
