//! An ordered map from `u64` keys that caches where its last search ended
//! and resumes the next search from there, with neighbour queries and a
//! bidirectional cursor.

pub mod cursor;
pub mod hinting;
pub mod order;

pub use cursor::Cursor;
pub use hinting::{BTreeWithHint, SearchResult};
