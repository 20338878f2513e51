//! Outline pages and the changelog page that is kept in step with releases.
//!
//! A page is an ordered list of `(text, indent level)` entries with a flat
//! list of properties. The changelog reconciler rewrites the entry of one
//! release inside the "Changed Pages" section of such a page and leaves the
//! rest of the page as it was.

pub mod changelog;
pub mod file_manager;
pub mod merge;
pub mod order;
pub mod outline;
pub mod page;
pub mod roundtrip;
pub mod stability;
pub mod storage;
pub mod sync;
pub mod text;
pub mod version;
