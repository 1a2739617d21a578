//! A compact, deduplicated index of dotted hierarchical names with wildcard
//! search, exact lookup and a fixed little-endian binary form.

pub mod codec;
pub mod error;
pub mod hash;
pub mod index;
pub mod laws;
pub mod model;
pub mod options;
pub mod order;
pub mod roundtrip;
pub mod search;
pub mod text;

pub use error::IxxError;
pub use hash::hash;
pub use index::{Index, Meta};
pub use model::{Label, OptionEntry, Reference};
pub use search::{searched_options, SearchedOption};
pub use options::{update_declaration, Declaration, DeclarationError};
