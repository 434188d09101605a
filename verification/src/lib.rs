//! A small line-oriented text search library: split text into lines and keep
//! the lines that contain a query string, case-sensitively or not, together
//! with the configuration rules of the command-line front end.

mod config;
mod search;

pub use config::Args;
pub use config::Config;
pub use config::arg_views;
pub use config::built_config;
pub use config::flag_present;
pub use config::lemma_ignore_case_precedence;
pub use config::resolved_ignore_case;
pub use search::ci_matching_lines;
pub use search::contains_seq;
pub use search::contains_substring;
pub use search::is_match_at;
pub use search::lemma_empty_query_matches_all;
pub use search::lemma_search_ci_query_folding;
pub use search::lemma_search_ci_spec_is_filter;
pub use search::lemma_search_spec_is_filter;
pub use search::line_views;
pub use search::lines_of;
pub use search::lines_spec;
pub use search::lower_of;
pub use search::matching_lines;
pub use search::search;
pub use search::search_case_insensitive;
pub use search::search_ci_spec;
pub use search::search_spec;
