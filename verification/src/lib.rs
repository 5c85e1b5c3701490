//! A small log-line field extractor.
//!
//! A format template such as `$remote_addr - $remote_user [$time_local]`
//! is compiled into an ordered schema of field descriptors
//! ([`LogFormat`]); the schema is then applied to individual log lines,
//! slicing out each field's text between inferred delimiters
//! ([`parse`]).

pub mod text;
pub mod scan;
pub mod format;
pub mod record;
pub mod extract;

pub use format::LogField;
pub use format::LogFormat;
pub use format::TemplateError;
pub use record::ExtractedRecord;
pub use extract::LineError;
pub use extract::parse;
pub use scan::until_seperator;
pub use scan::until_delimiter;
pub use scan::until_space;
pub use scan::until_end;
pub use scan::get_delimited;
