//! Parser, encoder and tree model for game records in SGF notation.
//!
//! The crate turns SGF text into a branching tree of nodes, each node
//! holding a sequence of typed property tokens, and can serialize such a
//! tree back to canonical SGF text. Structural grammar errors fail a parse;
//! a well-formed property that the codec does not recognize, or whose value
//! breaks that property's own grammar, never does: it is kept in the tree
//! as an `Unknown` or `Invalid` token for the caller to inspect.

pub mod error;
pub mod laws;
pub mod model;
pub mod node;
pub mod parser;
pub mod text;
pub mod token;

pub use crate::error::SgfError;
pub use crate::error::SgfErrorKind;
pub use crate::model::Collection;
pub use crate::model::GameTree;
pub use crate::model::GameTreeIterator;
pub use crate::node::GameNode;
pub use crate::parser::parse;
pub use crate::token::Action;
pub use crate::token::Color;
pub use crate::token::Decimal;
pub use crate::token::DisplayNodes;
pub use crate::token::Encoding;
pub use crate::token::Game;
pub use crate::token::Outcome;
pub use crate::token::RuleSet;
pub use crate::token::SgfToken;
