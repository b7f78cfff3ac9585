//! Listing engine for the directory and file listers: entries are scanned by
//! the caller, then indexed by name, filtered by case-insensitive queries,
//! sorted, and rendered as an aligned table or a single selected name.

pub mod entry;
pub mod index;
pub mod laws;
pub mod path_list;
pub mod pipeline;
pub mod query;
pub mod render;
pub mod text;

pub use entry::{goes_before, name_less, reverse_entries, sort_entries, Entry, SortKey, Stamp};
pub use index::{arrange_listing, index_entries, parse_index, resolve_target, Listing};
pub use laws::{
    law_filter_correct, law_index_stability, law_metric_reversed_ascends, law_name_order_strict,
    law_out_of_range_differs_from_absent, law_selection_alone, law_table_aligned,
};
pub use path_list::split_path_list;
pub use pipeline::{listing_lines, sort_key_of};
pub use query::{keep_matching, matches_any, passes, query_matches};
pub use render::{format_stamp, readable_size, render_lines, Lister};
pub use text::{decimal, pad_right, pad_zero};
