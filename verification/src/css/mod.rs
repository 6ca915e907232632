pub mod content;
pub mod parser;

pub use content::{Content, Item};
pub use parser::Parser;
