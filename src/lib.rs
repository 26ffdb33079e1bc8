//! Decisions of a zip extractor: where each archive entry lands under the
//! output directory, which entries are left out, and the count of what was
//! created.
pub mod path;
pub mod unzipper;

pub use unzipper::{EntryAction, Extraction, Unzipper, UnzipperStats};
