//! Convenience re-exports of the decoder's public items.

pub use crate::SearchError;
pub use crate::duplex::beam_search_duplex;
pub use crate::search::beam_search;
pub use crate::tree::{Node, SuffixTree};
pub use crate::vec2d::Vec2D;
