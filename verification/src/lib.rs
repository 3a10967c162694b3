//! A searchable index over caller-supplied elements: every element has a
//! numeric identifier and a text, and the index answers substring queries
//! with the identifier and the offset of the first occurrence.

pub mod answer;
pub mod element;
pub mod index;
pub mod laws;
pub mod result;
pub mod sort;
pub mod text;

pub use element::{MockEntity, SearchableElement};
pub use index::{KDTree, MockKDTree};
pub use result::SearchResult;
