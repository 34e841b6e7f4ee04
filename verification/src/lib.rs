//! A source-to-source refactoring pipeline over a small program model.
//!
//! Source text is parsed into a program, an ordered sequence of items. The
//! pipeline renames identifiers, splits oversized functions, removes
//! functions that nothing calls, folds literal integer arithmetic and puts
//! the items into a deterministic order; the result is printed as text
//! again. Every pass is a total function on the model, and its contract is
//! stated over the mathematical view of the tree.
//!
//! The grammar of the source text is left to `syn`. The library asks it for
//! the token text of items, statements and operands and decides by itself
//! what of that it models; what it does not model it carries along as opaque
//! text.

pub mod analysis;
pub mod eliminator;
pub mod extractor;
pub mod folder;
pub mod model;
pub mod parser;
pub mod pipeline;
pub mod printer;
pub mod renamer;
pub mod reorder;
pub mod text;
