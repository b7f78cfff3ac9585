use vstd::prelude::*;

use crate::entry::{Entry, SortKey};
use crate::index::{arrange_listing, arranged, index_entries, indexing_of};
use crate::query::kept;
use crate::render::{render_lines, table_of, Lister};

verus! {

/// `lines` is what a listing of the indexed entries `ix` prints: for a
/// position request in range, that entry's name alone; for one out of range,
/// one empty line; without a request, the table of the entries that pass
/// `queries`, sorted by `key` and reversed where `reverse` is set.
pub open spec fn shown_as(
    lines: Seq<String>,
    ix: Seq<Entry>,
    queries: Seq<String>,
    key: SortKey,
    reverse: bool,
    index: Option<usize>,
    lister: Lister,
    minimal: bool,
) -> bool {
    match index {
        Some(k) => if 1 <= k <= ix.len() {
            lines.len() == 1 && lines[0]@ == ix[k - 1].name@
        } else {
            lines.len() == 1 && lines[0]@.len() == 0
        },
        None => exists|t: Seq<Entry>|
            arranged(t, kept(ix, queries), key, reverse) && table_of(lines, t, lister, minimal),
    }
}

/// The lines a listing of the scanned entries `raw` prints: they are indexed
/// by name first, then either the requested position is picked out, or the
/// entries that pass `queries` are sorted and rendered as a table.
pub fn listing_lines(
    raw: Vec<Entry>,
    queries: &Vec<String>,
    key: SortKey,
    reverse: bool,
    index: Option<usize>,
    lister: Lister,
    minimal: bool,
) -> (r: Vec<String>)
    ensures
        exists|ix: Seq<Entry>|
            indexing_of(ix, raw@) && shown_as(
                r@,
                ix,
                queries@,
                key,
                reverse,
                index,
                lister,
                minimal,
            ),
{
    let ix = index_entries(raw);
    let ghost ixs = ix@;
    let listing = arrange_listing(ix, queries, key, reverse, index);
    let r = render_lines(&listing, lister, minimal);
    proof {
        if index is None {
            let t = listing->Table_0@;
            assert(arranged(t, kept(ixs, queries@), key, reverse) && table_of(
                r@,
                t,
                lister,
                minimal,
            ));
        }
        assert(shown_as(r@, ixs, queries@, key, reverse, index, lister, minimal));
    }
    r
}

/// The sort criterion that a key names: `n` or `name`; `s`, `size` or
/// `metric`; `m` or `modified`. Any other key leaves the order unchanged.
pub open spec fn sort_key_named(s: Seq<char>) -> SortKey {
    if s == "n"@ || s == "name"@ {
        SortKey::Name
    } else if s == "s"@ || s == "size"@ || s == "metric"@ {
        SortKey::Metric
    } else if s == "m"@ || s == "modified"@ {
        SortKey::Modified
    } else {
        SortKey::Keep
    }
}

fn same_text(a: &str, b: &str) -> (r: bool)
    ensures
        r == (a@ == b@),
{
    let x = String::from_str(a);
    let y = String::from_str(b);
    x == y
}

/// The sort criterion that `s` names, as `sort_key_named` says.
pub fn sort_key_of(s: &str) -> (r: SortKey)
    ensures
        r == sort_key_named(s@),
{
    if same_text(s, "n") || same_text(s, "name") {
        SortKey::Name
    } else if same_text(s, "s") || same_text(s, "size") || same_text(s, "metric") {
        SortKey::Metric
    } else if same_text(s, "m") || same_text(s, "modified") {
        SortKey::Modified
    } else {
        SortKey::Keep
    }
}

} // verus!
