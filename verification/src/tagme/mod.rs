//! Linking the mentions of a short text to pages.

pub mod params;
pub mod query;
pub mod query_text;
pub mod stopwords;
pub mod tag_me;
