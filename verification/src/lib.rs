//! A verified cursor-walking and editing core for a rich-text document tree.
//!
//! A document is a tree of groups (each carrying string attributes, such as
//! a `tag`) and runs of characters. Every position of a cursor in that tree
//! corresponds to an index into the document's token stream: an `Open` token
//! for each group start, a `Char` token for each character and a `Close`
//! token for each group end. All contracts are stated over that stream.

pub mod doc;
pub mod tokens;
pub mod stepper;
pub mod schema;
pub mod walkers;
pub mod writer;
pub mod cursor;
pub mod actions;
pub mod validate;
