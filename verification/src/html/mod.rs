pub mod content;
pub mod parser;

pub use content::Content;
pub use parser::Parser;
