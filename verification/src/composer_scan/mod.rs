//! What the panel composer's buffer is made of, as byte ranges.
//!
//! - [`scan`] classifies a buffer from scratch.
//! - [`rescan`] does the same for an edit, touching only what the edit can
//!   have changed.
//!
//! Deciding *where* the runs are is this module's whole job; turning a run
//! into a colour is the decoration layer's.

pub mod span;
pub mod inline;
pub mod markdown;
pub mod tokens;
pub mod lines;
pub mod order;
pub mod scan;
pub mod dirty;
pub mod escaping;
pub mod incremental;
pub mod line_tokens;
pub mod fenced;

pub use span::Construct;
pub use span::Edit;
pub use span::Span;
pub use scan::dirty_range;
pub use scan::rescan;
pub use scan::scan;
pub use scan::tokens_on_line;
pub use tokens::escape_token;
