//! Fuzzy search over the documentation of a Rust package.
//!
//! The documentation comes as a tree of items ([`Ast`]): every item under
//! its identifier, and the canonical path of each item of the public
//! surface. [`Doc::build_search_index`] derives from it the search keys,
//! one for every item, every named member of a type or a trait and every
//! re-export, and a record of each item that a key names.
//! [`Doc::search`] scores a query against the keys, ranks the matches and
//! answers with records.
//!
//! Documentation passes through stages, each a state of [`Doc`]:
//! [`Remote`] on docs.rs, [`Compressed`], [`RawJson`], [`Parsed`] into a
//! tree, and [`Indexed`].

pub mod ast;
pub mod compressed;
pub mod doc;
pub mod error;
pub mod index;
pub mod item;
pub mod key_laws;
pub mod keys;
pub mod locator;
pub mod rank;
pub mod resolve;
pub mod search;
pub mod seqs;
pub mod table;
pub mod tree;

pub use ast::{
    AstItem, Deprecation, ItemInner, ItemKind, Link, MacroKind, Span, Summary, Visibility,
};
pub use compressed::{Compressed, RawJson};
pub use doc::{Doc, Parsed};
pub use error::Error;
pub use index::Indexed;
pub use item::Item;
pub use keys::{KeyView, SearchKey};
pub use locator::Remote;
pub use rank::Candidate;
pub use resolve::Resolver;
pub use table::{IdMap, IdMapView};
pub use tree::{Ast, AstView};
