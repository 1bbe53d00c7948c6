//! Enumeration of every binary composition of a sequence of link references
//! inside a doublets store, and cycle-safe rendering of the resulting
//! structures.
//!
//! - [`store`] holds the link store, seen as a map from link index to
//!   `(source, target)`.
//! - [`variants`] enumerates the compositions of a sequence and makes each a
//!   content-addressed link; [`shape`] is the model it is stated over, and
//!   [`catalan`] counts the compositions.
//! - [`format`] renders a link as nested parentheses; [`text`] writes the
//!   references.

pub mod catalan;
pub mod format;
pub mod link;
pub mod logic;
pub mod shape;
pub mod store;
pub mod text;
pub mod variants;

pub use catalan::{catalan, checked_catalan, TableExceeded};
pub use format::{deep_format, deep_format_within};
pub use link::{Link, Sentinels};
pub use logic::nand;
pub use store::{get_link_by_id, LinkStore, StoreError, LINK_LIMIT};
pub use variants::{all_seq_variants, spec_all_variants, EnumerationError};
