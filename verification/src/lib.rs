//! Verified engine for browsing a flat MBOX mail archive.
//!
//! An MBOX file concatenates RFC 5322 messages, each introduced by a
//! "From " envelope line.  This crate turns such a file, given as plain
//! bytes, into a randomly-searchable, paginated mail collection:
//!
//! * [`index`] streams the bytes once and emits one lightweight
//!   [`model::MailEntry`] per message (byte range plus parsed metadata);
//! * [`store`] reads a message's byte range back and parses it into a
//!   full body with text, HTML and attachment parts;
//! * [`search`] compiles a small query language into a predicate over
//!   the index (fast path) or over message bodies (slow path);
//! * [`session`] owns the open file's entries and store and sequences
//!   the operations open, browse, search, fetch and close.
//!
//! Reading the file from disk is the caller's concern: every function
//! here works on values already in memory.

pub mod date;
pub mod error;
pub mod headers;
pub mod index;
pub mod labels;
pub mod mime;
pub mod model;
pub mod order;
pub mod query;
pub mod search;
pub mod session;
pub mod store;
pub mod text;

pub use error::AppError;
pub use session::MboxService;
pub use model::AttachmentInfo;
pub use model::EmailAddress;
pub use model::EmailBody;
pub use model::EmailEntry;
pub use model::LabelCount;
pub use model::MboxStats;
pub use model::SearchResults;
