//! Content-addressed packaging of blog posts: a post (metadata record, HTML
//! document, assets) becomes one uncompressed archive whose content digest can be
//! recomputed, signed and verified.

pub mod digest;
pub mod model;
pub mod names;
pub mod package;
pub mod signature;
