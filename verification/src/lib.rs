//! Composable text primitives: casing, lines, Markdown inspection,
//! whitespace normalization, readability metrics, slugs, tokens,
//! truncation and words.
pub mod text;
pub mod normalize;
pub mod readable;
pub mod truncate;
pub mod slug;
pub mod word;
pub mod token;
pub mod case;
pub mod line;
pub mod markdown;
