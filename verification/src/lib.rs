//! Link checking for Markdown documents: finding links, parsing them, and looking up
//! the anchors that their fragments name.
//!
//! - `markdown` finds the links of a document, and `record` reads and holds them.
//! - `link` tells what a link points to, with the help of `url` and `path`.
//! - `anchor`, `id` and `html` find the anchors of a document.
//! - `fragment` looks up a fragment among them.
//! - `fetch` says how to get at a document, and `resolve` puts it all together.
//! - `tag`, `errors` and `warning` are about what is reported.
#![allow(unused_imports)]

pub mod anchor;
pub mod errors;
pub mod fetch;
pub mod fragment;
pub mod host;
pub mod html;
pub mod id;
pub mod link;
pub mod markdown;
pub mod number;
pub mod path;
pub mod record;
pub mod resolve;
pub mod tag;
pub mod text;
pub mod url;
pub mod warning;
