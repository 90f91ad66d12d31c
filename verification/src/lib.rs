//! A small document pipeline: an HTML tokenizer and tree builder, a CSS
//! rule parser, a style cascade that attaches resolved properties to DOM
//! nodes, and a box-model layout pass that turns the styled tree into
//! positioned boxes ready for painting.
//!
//! Raw markup and stylesheet text flow strictly forward: HTML and CSS are
//! parsed independently, the cascade consumes both results, and the layout
//! builder consumes the cascade's output. Window management, rasterization
//! and script evaluation are external collaborators that only consume the
//! values this crate produces.

pub mod browser;
pub mod css;
pub mod css_parser;
pub mod dom;
pub mod html_parser;
pub mod layout;
pub mod render;
pub mod text;
