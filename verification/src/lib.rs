//! Core algorithms of a small web engine: an arena DOM, CSS selector matching, the
//! `innerText` rendered-text algorithm, CJK line breaking, CSS value parsing and a
//! strict WOFF2 decoder.

pub mod text;
pub mod dom;
pub mod style;
pub mod linebreak;
pub mod woff2;
pub mod dom_helpers;
pub mod inner_text;
pub mod serialize;
pub mod selector;
pub mod variables;
pub mod values;
pub mod text_helpers;
pub mod layout;
pub mod font;
pub mod selection;
