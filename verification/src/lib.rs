//! A static blog generator: markdown content in, HTML documents out.

pub mod text;
pub mod escape;
pub mod inline;
pub mod markdown;
pub mod frontmatter;
pub mod rank;
pub mod model;
pub mod pages;
pub mod render;
pub mod site;
