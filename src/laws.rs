use vstd::prelude::*;

use crate::entry::{
    lemma_name_lt_irreflexive, lemma_name_lt_total, name_lt, precedes, reversed, Entry, SortKey,
};
use crate::index::{arranged, facts, facts_of, indexing_of, lemma_map_multiset};
use crate::pipeline::shown_as;
use crate::query::{kept, survives};
use crate::render::{
    header_line, metric_text, metric_width, name_label, name_width, pow10, size_text, stamp_text,
    table_of, widest_metric, widest_name, lemma_dec_len_below, Lister,
};
use crate::text::{dec, padded};

verus! {

/// No two entries of `s` share a name, as in one directory.
pub open spec fn names_distinct(s: Seq<Entry>) -> bool {
    forall|i: int, j: int|
        0 <= i < s.len() && 0 <= j < s.len() && i != j ==> (#[trigger] s[i]).name@ != (
        #[trigger] s[j]).name@
}

proof fn lemma_names_distinct_carry(a: Seq<Entry>, b: Seq<Entry>)
    requires
        facts_of(a).to_multiset() == facts_of(b).to_multiset(),
        names_distinct(b),
    ensures
        names_distinct(a),
{
    broadcast use vstd::seq_lib::group_to_multiset_ensures;

    let fa = facts_of(a);
    let fb = facts_of(b);
    assert(fb.no_duplicates()) by {
        assert forall|i: int, j: int|
            0 <= i < fb.len() && 0 <= j < fb.len() && i != j implies fb[i] != fb[j] by {
            assert(b[i].name@ != b[j].name@);
        }
    }
    fb.lemma_multiset_has_no_duplicates();
    fa.lemma_multiset_has_no_duplicates_conv();
    assert forall|i: int, j: int|
        0 <= i < a.len() && 0 <= j < a.len() && i != j implies (#[trigger] a[i]).name@ != (
        #[trigger] a[j]).name@ by {
        if a[i].name@ == a[j].name@ {
            assert(fa[i] == facts(a[i]) && fa[j] == facts(a[j]));
            assert(fa.contains(fa[i]) && fa.contains(fa[j]));
            assert(fa.to_multiset().count(fa[i]) > 0 && fa.to_multiset().count(fa[j]) > 0);
            assert(fb.to_multiset().count(fa[i]) > 0 && fb.to_multiset().count(fa[j]) > 0);
            assert(fb.contains(fa[i]) && fb.contains(fa[j]));
            let p = choose|p: int| 0 <= p < fb.len() && fb[p] == fa[i];
            let q = choose|q: int| 0 <= q < fb.len() && fb[q] == fa[j];
            assert(b[p].name@ == b[q].name@);
        }
    }
}

proof fn lemma_kept_from(s: Seq<Entry>, queries: Seq<String>, x: Entry)
    requires
        kept(s, queries).contains(x),
    ensures
        s.contains(x),
    decreases s.len(),
{
    reveal(Seq::filter);
    if s.len() > 0 {
        let rest = kept(s.drop_last(), queries);
        if rest.contains(x) {
            lemma_kept_from(s.drop_last(), queries, x);
            let i = choose|i: int| 0 <= i < s.drop_last().len() && s.drop_last()[i] == x;
            assert(s[i] == x);
        } else {
            assert(x == s.last());
            assert(s[s.len() - 1] == x);
        }
    }
}

proof fn lemma_arranged_from(t: Seq<Entry>, s: Seq<Entry>, key: SortKey, reverse: bool, j: int)
    requires
        arranged(t, s, key, reverse),
        0 <= j < t.len(),
    ensures
        s.contains(t[j]),
{
    broadcast use vstd::seq_lib::group_to_multiset_ensures;

    let u = if reverse {
        reversed(t)
    } else {
        t
    };
    let at = if reverse {
        t.len() - 1 - j
    } else {
        j
    };
    assert(u[at] == t[j]);
    assert(u.contains(t[j]));
    assert(u.to_multiset().count(t[j]) > 0);
    assert(s.to_multiset().count(t[j]) > 0);
}

/// Positions depend on names alone. After indexing a directory's entries
/// (no two share a name), an entry's position is its rank in ascending name
/// order: one entry has a smaller position than another exactly when its
/// name is smaller. Whatever the queries, sort key and direction, every row
/// of the table is an indexed entry and keeps the position it was given.
pub proof fn law_index_stability(
    raw: Seq<Entry>,
    ix: Seq<Entry>,
    queries: Seq<String>,
    key: SortKey,
    reverse: bool,
    t: Seq<Entry>,
)
    requires
        names_distinct(raw),
        indexing_of(ix, raw),
        arranged(t, kept(ix, queries), key, reverse),
    ensures
        forall|i: int, k: int|
            0 <= i < ix.len() && 0 <= k < ix.len() ==> (name_lt(
                (#[trigger] ix[k]).name@,
                (#[trigger] ix[i]).name@,
            ) <==> ix[k].position < ix[i].position),
        forall|j: int|
            0 <= j < t.len() ==> 1 <= (#[trigger] t[j]).position <= ix.len() && ix[t[j].position
                - 1] == t[j],
{
    lemma_names_distinct_carry(ix, raw);
    assert forall|i: int, k: int| 0 <= i < ix.len() && 0 <= k < ix.len() implies (name_lt(
        (#[trigger] ix[k]).name@,
        (#[trigger] ix[i]).name@,
    ) <==> ix[k].position < ix[i].position) by {
        if k < i {
            lemma_name_lt_total(ix[k].name@, ix[i].name@);
        } else if k == i {
            lemma_name_lt_irreflexive(ix[k].name@);
        }
    }
    assert forall|j: int| 0 <= j < t.len() implies 1 <= (#[trigger] t[j]).position <= ix.len()
        && ix[t[j].position - 1] == t[j] by {
        lemma_arranged_from(t, kept(ix, queries), key, reverse, j);
        lemma_kept_from(ix, queries, t[j]);
        let i = choose|i: int| 0 <= i < ix.len() && ix[i] == t[j];
        assert(t[j] == ix[i] && t[j].position == i + 1);
    }
}

/// The filter keeps exactly the entries that pass: an entry is kept if and
/// only if it was there and the queries are empty or one of them occurs in
/// its name, ignoring case.
pub proof fn law_filter_correct(s: Seq<Entry>, queries: Seq<String>, e: Entry)
    ensures
        kept(s, queries).contains(e) <==> (s.contains(e) && (queries.len() == 0 || exists|i: int|
            0 <= i < queries.len() && crate::query::query_hit(
                #[trigger] queries[i]@,
                e.name@,
            ))),
{
    broadcast use vstd::seq_lib::group_filter_ensures;

    let pred = |x: Entry| survives(queries, x.name@);
    if kept(s, queries).contains(e) {
        lemma_kept_from(s, queries, e);
        let i = choose|i: int| 0 <= i < s.filter(pred).len() && s.filter(pred)[i] == e;
        assert(pred(s.filter(pred)[i]));
    }
    if s.contains(e) && survives(queries, e.name@) {
        let i = choose|i: int| 0 <= i < s.len() && s[i] == e;
        assert(pred(s[i]));
        assert(s.filter(pred).contains(s[i]));
    }
}

/// Sorting by metric (largest first) and then reversing gives ascending
/// metrics.
pub proof fn law_metric_reversed_ascends(t: Seq<Entry>, s: Seq<Entry>)
    requires
        arranged(t, s, SortKey::Metric, true),
    ensures
        forall|i: int, j: int| 0 <= i < j < t.len() ==> (#[trigger] t[i]).metric <= (
        #[trigger] t[j]).metric,
{
    let u = reversed(t);
    assert forall|i: int, j: int| 0 <= i < j < t.len() implies (#[trigger] t[i]).metric <= (
    #[trigger] t[j]).metric by {
        let a = t.len() - 1 - j;
        let b = t.len() - 1 - i;
        assert(u[a] == t[j] && u[b] == t[i]);
        assert(!precedes(u[b], u[a], SortKey::Metric));
    }
}

/// Sorting entries with distinct names by name, without reversing, gives
/// strictly ascending names.
pub proof fn law_name_order_strict(t: Seq<Entry>, s: Seq<Entry>)
    requires
        arranged(t, s, SortKey::Name, false),
        names_distinct(s),
    ensures
        forall|i: int, j: int| 0 <= i < j < t.len() ==> name_lt(
            (#[trigger] t[i]).name@,
            (#[trigger] t[j]).name@,
        ),
{
    lemma_map_multiset(t, s, |e: Entry| facts(e));
    lemma_names_distinct_carry(t, s);
    assert forall|i: int, j: int| 0 <= i < j < t.len() implies name_lt(
        (#[trigger] t[i]).name@,
        (#[trigger] t[j]).name@,
    ) by {
        assert(!precedes(t[j], t[i], SortKey::Name));
        lemma_name_lt_total(t[i].name@, t[j].name@);
    }
}

/// A request for a position in range prints one line, and that line is the
/// name of one of the scanned entries: no header and no other row.
pub proof fn law_selection_alone(
    raw: Seq<Entry>,
    queries: Seq<String>,
    key: SortKey,
    reverse: bool,
    k: usize,
    lister: Lister,
    minimal: bool,
    lines: Seq<String>,
)
    requires
        1 <= k <= raw.len(),
        exists|ix: Seq<Entry>|
            indexing_of(ix, raw) && shown_as(
                lines,
                ix,
                queries,
                key,
                reverse,
                Some(k),
                lister,
                minimal,
            ),
    ensures
        lines.len() == 1,
        exists|i: int| 0 <= i < raw.len() && lines[0]@ == (#[trigger] raw[i]).name@,
{
    broadcast use vstd::seq_lib::group_to_multiset_ensures;

    let ix = choose|ix: Seq<Entry>|
        indexing_of(ix, raw) && shown_as(lines, ix, queries, key, reverse, Some(k), lister, minimal);
    let fx = facts_of(ix);
    let fr = facts_of(raw);
    assert(fx[k - 1] == facts(ix[k - 1]));
    assert(fx.contains(fx[k - 1]));
    assert(fx.to_multiset().count(fx[k - 1]) > 0);
    assert(fr.to_multiset().count(fx[k - 1]) > 0);
    assert(fr.contains(fx[k - 1]));
    let p = choose|p: int| 0 <= p < fr.len() && fr[p] == fx[k - 1];
    assert(lines[0]@ == raw[p].name@);
}

/// A request out of range (0, or past the last entry) prints one empty
/// line; no request prints a table: a header, then one row for each scanned
/// entry whose name passes the queries. The two outcomes differ.
pub proof fn law_out_of_range_differs_from_absent(
    raw: Seq<Entry>,
    queries: Seq<String>,
    key: SortKey,
    reverse: bool,
    k: usize,
    lister: Lister,
    minimal: bool,
    requested: Seq<String>,
    absent: Seq<String>,
)
    requires
        k == 0 || k > raw.len(),
        exists|ix: Seq<Entry>|
            indexing_of(ix, raw) && shown_as(
                requested,
                ix,
                queries,
                key,
                reverse,
                Some(k),
                lister,
                minimal,
            ),
        exists|ix: Seq<Entry>|
            indexing_of(ix, raw) && shown_as(
                absent,
                ix,
                queries,
                key,
                reverse,
                None,
                lister,
                minimal,
            ),
    ensures
        requested.len() == 1,
        requested[0]@.len() == 0,
        absent.len() == 1 + kept(raw, queries).len(),
        exists|nw: nat, mw: nat| absent[0]@ == header_line(lister, minimal, nw, mw),
        requested[0]@ != absent[0]@,
{
    broadcast use vstd::seq_lib::group_to_multiset_ensures;

    let ix = choose|ix: Seq<Entry>|
        indexing_of(ix, raw) && shown_as(absent, ix, queries, key, reverse, None, lister, minimal);
    let t = choose|t: Seq<Entry>|
        arranged(t, kept(ix, queries), key, reverse) && crate::render::table_of(
            absent,
            t,
            lister,
            minimal,
        );
    let nw = crate::render::name_width(lister, t);
    let mw = crate::render::metric_width(lister, t);
    assert(absent[0]@ == header_line(lister, minimal, nw, mw));
    assert(header_line(lister, minimal, nw, mw).len() >= 5);
    let u = if reverse {
        reversed(t)
    } else {
        t
    };
    assert(u.len() == u.to_multiset().len());
    assert(kept(ix, queries).len() == kept(ix, queries).to_multiset().len());
    lemma_kept_len_same_facts(ix, raw, queries);
}

proof fn lemma_kept_one_removed(b: Seq<Entry>, queries: Seq<String>, j: int)
    requires
        0 <= j < b.len(),
    ensures
        kept(b, queries).len() == kept(b.remove(j), queries).len() + if survives(
            queries,
            b[j].name@,
        ) {
            1int
        } else {
            0int
        },
{
    broadcast use Seq::filter_distributes_over_add;

    let front = b.subrange(0, j);
    let back = b.subrange(j + 1, b.len() as int);
    let one = seq![b[j]];
    assert(b =~= front + one + back);
    assert(b.remove(j) =~= front + back);
    assert(kept(b, queries) == kept(front + one, queries) + kept(back, queries));
    assert(kept(front + one, queries) == kept(front, queries) + kept(one, queries));
    assert(kept(front + back, queries) == kept(front, queries) + kept(back, queries));
    assert(kept(one, queries).len() == if survives(queries, b[j].name@) {
        1int
    } else {
        0int
    }) by {
        reveal(Seq::filter);
        assert(one.drop_last() =~= Seq::<Entry>::empty());
        assert(one.last() == b[j]);
        assert(kept(one.drop_last(), queries).len() == 0);
        assert(one.len() == 1);
    }
}

proof fn lemma_kept_len_same_facts(a: Seq<Entry>, b: Seq<Entry>, queries: Seq<String>)
    requires
        facts_of(a).to_multiset() == facts_of(b).to_multiset(),
    ensures
        kept(a, queries).len() == kept(b, queries).len(),
    decreases a.len(),
{
    broadcast use vstd::seq_lib::group_to_multiset_ensures;

    if a.len() == 0 {
        assert(facts_of(a).to_multiset().len() == 0);
        assert(facts_of(b).to_multiset().len() == facts_of(b).len());
        assert(b =~= Seq::<Entry>::empty());
        assert(a =~= Seq::<Entry>::empty());
        reveal(Seq::filter);
    } else {
        let x = a.last();
        let fa = facts_of(a);
        let fb = facts_of(b);
        assert(fa[a.len() - 1] == facts(x));
        assert(fa.contains(facts(x)));
        assert(fa.to_multiset().count(facts(x)) > 0);
        assert(fb.to_multiset().count(facts(x)) > 0);
        assert(fb.contains(facts(x)));
        let j = choose|j: int| 0 <= j < fb.len() && fb[j] == facts(x);
        let a2 = a.drop_last();
        let b2 = b.remove(j);
        assert(fa =~= facts_of(a2).push(facts(x)));
        assert(facts_of(b2) =~= fb.remove(j));
        assert(facts_of(a2).to_multiset() =~= facts_of(b2).to_multiset());
        lemma_kept_len_same_facts(a2, b2, queries);
        lemma_kept_one_removed(b, queries, j);
        lemma_kept_one_removed(a, queries, a.len() - 1);
        assert(a.remove(a.len() - 1) =~= a2);
        assert(b[j].name@ == x.name@);
    }
}

/// The width the metric column of a full table of `t` takes.
pub open spec fn metric_column(lister: Lister, t: Seq<Entry>) -> nat {
    match lister {
        Lister::Folders => metric_width(lister, t) + 6,
        Lister::Files => metric_width(lister, t),
    }
}

/// Line `l` has its column separators where a table with a name column of
/// width `nw` and a metric column of width `mc` puts them.
pub open spec fn separators_at(l: Seq<char>, minimal: bool, nw: nat, mc: nat) -> bool {
    &&& l.len() >= 10 + nw
    &&& l[5] == ' ' && l[6] == '|' && l[7] == ' '
    &&& l[8 + nw as int] == ' ' && l[9 + nw as int] == '|'
    &&& !minimal ==> l.len() >= 13 + nw + mc && l[11 + nw as int + mc as int] == ' ' && l[12 + nw as int + mc as int] == '|'
}

proof fn lemma_widest_name_at_least(t: Seq<Entry>, i: int)
    requires
        0 <= i < t.len(),
    ensures
        t[i].name@.len() <= widest_name(t),
    decreases t.len(),
{
    if i < t.len() - 1 {
        lemma_widest_name_at_least(t.drop_last(), i);
    }
}

proof fn lemma_widest_metric_at_least(lister: Lister, t: Seq<Entry>, i: int)
    requires
        0 <= i < t.len(),
    ensures
        metric_text(lister, t[i].metric).len() <= widest_metric(lister, t),
    decreases t.len(),
{
    if i < t.len() - 1 {
        lemma_widest_metric_at_least(lister, t.drop_last(), i);
    }
}

proof fn lemma_shape(
    l: Seq<char>,
    a: Seq<char>,
    b: Seq<char>,
    m: Seq<char>,
    z: Seq<char>,
    minimal: bool,
    nw: nat,
    mc: nat,
)
    requires
        a.len() == 5,
        b.len() == nw,
        m.len() == mc,
        minimal ==> l == a + " | "@ + b + " |"@,
        !minimal ==> l == a + " | "@ + b + " | "@ + m + " | "@ + z,
    ensures
        separators_at(l, minimal, nw, mc),
{
    reveal_strlit(" | ");
    reveal_strlit(" |");
    assert(" | "@ =~= seq![' ', '|', ' ']);
    assert(" |"@ =~= seq![' ', '|']);
    if minimal {
        assert(l[5] == " | "@[0] && l[6] == " | "@[1] && l[7] == " | "@[2]);
        assert(l[8 + nw as int] == " |"@[0] && l[9 + nw as int] == " |"@[1]);
    } else {
        assert(l[5] == " | "@[0] && l[6] == " | "@[1] && l[7] == " | "@[2]);
        assert(l[8 + nw as int] == " | "@[0] && l[9 + nw as int] == " | "@[1]);
        assert(l[11 + nw as int + mc as int] == " | "@[0] && l[12 + nw as int + mc as int] == " | "@[1]);
    }
}

/// Tables line up. Where no position needs more than five digits, every
/// line of a table, the header and each row, has its column separators at
/// the same places: ` | ` after the five characters of the first column,
/// ` |` after the name column, whose width is `name_width`, and in a full
/// table ` |` after the metric column too.
pub proof fn law_table_aligned(lines: Seq<String>, t: Seq<Entry>, lister: Lister, minimal: bool)
    requires
        table_of(lines, t, lister, minimal),
        forall|i: int| 0 <= i < t.len() ==> (#[trigger] t[i]).position < 100000,
    ensures
        forall|i: int|
            0 <= i < lines.len() ==> separators_at(
                (#[trigger] lines[i])@,
                minimal,
                name_width(lister, t),
                metric_column(lister, t),
            ),
{
    let nw = name_width(lister, t);
    let mw = metric_width(lister, t);
    let mc = metric_column(lister, t);
    reveal_strlit("Index");
    reveal_strlit("S.n");
    reveal_strlit("Items");
    reveal_strlit("Size");
    reveal_strlit(" items");
    assert(pow10(5) == 100000) by {
        reveal_with_fuel(pow10, 6);
    }
    assert forall|i: int| 0 <= i < lines.len() implies separators_at(
        (#[trigger] lines[i])@,
        minimal,
        nw,
        mc,
    ) by {
        let l = lines[i]@;
        if i == 0 {
            let a = if minimal {
                padded("S.n"@, 5)
            } else {
                padded("Index"@, 5)
            };
            let b = padded(name_label(lister), nw);
            let m = match lister {
                Lister::Folders => padded("Items"@, mw + 6),
                Lister::Files => padded("Size"@, mw),
            };
            lemma_shape(l, a, b, m, "Modified At"@, minimal, nw, mc);
        } else {
            let e = t[i - 1];
            assert(lines[(i - 1) + 1] == lines[i]);
            lemma_dec_len_below(e.position as nat, 5);
            lemma_widest_name_at_least(t, i - 1);
            lemma_widest_metric_at_least(lister, t, i - 1);
            let a = padded(dec(e.position as nat), 5);
            let b = padded(e.name@, nw);
            let m = match lister {
                Lister::Folders => padded(dec(e.metric as nat), mw) + " items"@,
                Lister::Files => padded(size_text(e.metric as nat), mw),
            };
            lemma_shape(l, a, b, m, stamp_text(e.modified), minimal, nw, mc);
        }
    }
}

} // verus!
