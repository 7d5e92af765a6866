//! Line-oriented substring search: scan text line by line, collect the lines
//! that contain a query (case-sensitively or not), and mark the spans where
//! the query occurs so a caller can highlight them.

mod config;
mod highlight;
mod search;

pub use highlight::esc_free;
pub use highlight::highlight_positions;
pub use highlight::lemma_marked_segments_are_the_query;
pub use highlight::lemma_match_is_highlighted;
pub use highlight::lemma_positions_are_matches;
pub use highlight::line_segments;
pub use highlight::match_positions;
pub use highlight::positions_from;
pub use highlight::render_line;
pub use highlight::segments_of;
pub use highlight::to_int_seq;
pub use highlight::Segment;

pub use config::Config;
pub use config::ConfigError;
pub use search::contains_at;
pub use search::contains_seq;
pub use search::lemma_empty_query_returns_all_lines;
pub use search::lemma_search_case_insensitive_deterministic;
pub use search::lemma_search_deterministic;
pub use search::lines_of;
pub use search::lower_of;
pub use search::matching_lines;
pub use search::search;
pub use search::search_case_insensitive;
pub use search::search_ci_spec;
pub use search::search_spec;
