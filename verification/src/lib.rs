//! Tent compiles two small, indentation-sensitive languages: one for markup,
//! one for style sheets. A text is cut into lines and tokens (`lexer`), each
//! line is read as one node (`html::parser`, `css::parser`), the nodes are put
//! together into trees by their indentation (`tree`), a style sheet is made
//! flat, and the result is written out as text (`html::content`,
//! `css::content`).

pub mod css;
pub mod error;
pub mod html;
pub mod lexer;
pub mod std_specs;
pub mod text;
pub mod tree;
pub mod util;
pub mod vecs;

pub use css::content::Content as CssContent;
pub use css::content::Item as CssItem;
pub use html::content::Content as HtmlContent;
