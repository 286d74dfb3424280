pub mod anonymizer;
pub mod engine;
pub mod error;
pub mod legend;
pub mod mapping;
pub mod patterns;
pub mod text;

pub use anonymizer::{Options, anonymize_text, parse_keywords};
pub use error::{AnonymizationError, LegendError, PatternError};
pub use legend::{AnonymizationMap, format_legend};
pub use mapping::Mapping;
pub use patterns::{
    anonymize_keyword_pieces, flatten, run_pieces, substitute, Category,
    anonymize_channels, anonymize_display_names, anonymize_emails, anonymize_keywords,
    anonymize_urls, anonymize_users,
};
