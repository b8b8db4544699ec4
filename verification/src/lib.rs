//! A lookup engine for a Cangjie-style character code table.
//!
//! The library turns a flat textual table (or a binary artifact produced by
//! its own encoder) into a filtered, indexed collection of entries, and
//! answers character-to-code, code-to-character and wildcard pattern
//! queries against it, in a deterministic display order.

mod codec;
mod db;
mod entry;
mod filter;
mod pattern;
mod radicals;
mod search;
mod strutil;
mod table;

pub use codec::DecodeError;
pub use codec::entries_from_data;
pub use codec::entries_bounded;
pub use codec::entryv_bounded;
pub use codec::lemma_encode_decode_roundtrip;
pub use codec::spec_decode_entries;
pub use codec::spec_encode_entries;
pub use codec::to_data;
pub use db::CongkitDB;
pub use db::lemma_build_filter_monotone;
pub use db::lemma_version_binding;
pub use db::PatternError;
pub use db::bind_code;
pub use db::last_entryv;
pub use db::lemma_last_entryv_prepend;
pub use db::lemma_last_entryv_unique;
pub use db::seq_has_charv;
pub use entry::Entry;
pub use entry::EntryView;
pub use entry::filter_passes;
pub use entry::lemma_filter_passes_monotone;
pub use entry::lemma_passes_monotone;
pub use entry::spec_active_code;
pub use entry::spec_passes;
pub use filter::CongkitFilter;
pub use pattern::lemma_prefix_star_matches;
pub use pattern::lemma_star_matches_nonempty;
pub use pattern::pattern_matches;
pub use pattern::spec_pattern_matches;
pub use filter::CongkitVersion;
pub use radicals::key_to_radical;
pub use radicals::lemma_radical_bijection;
pub use radicals::radical_to_key;
pub use search::search_post;
pub use table::ParseError;
pub use table::line_skipped;
pub use table::spec_parse_line;
pub use table::spec_parse_table;
pub use table::spec_to_entries;
