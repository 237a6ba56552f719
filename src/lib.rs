//! Flattening of nested text style scopes into contiguous styled runs.
//!
//! Callers open and close style scopes around pieces of text; the builder
//! resolves the cascade and emits, for each piece, a run that covers its
//! bytes in the flattened text. Inline white space may be collapsed along
//! the way.
pub mod style;
pub mod tree;
pub mod whitespace;

pub use style::{RangedStyle, ResolvedProperty, ResolvedStyle, WhiteSpaceCollapse};
pub use tree::TreeStyleBuilder;
pub use whitespace::collapse_white_space;
