use vstd::prelude::*;
use vstd::string::*;

use crate::entry::{
    in_order, name_lt, precedes, reverse_entries, reversed, sort_entries, Entry, SortKey,
};
use crate::query::{keep_matching, kept};

verus! {

/// What an entry is apart from its position.
pub open spec fn facts(e: Entry) -> (Seq<char>, u64, crate::entry::Stamp) {
    (e.name@, e.metric, e.modified)
}

/// The facts of each entry of `s`, in order.
pub open spec fn facts_of(s: Seq<Entry>) -> Seq<(Seq<char>, u64, crate::entry::Stamp)> {
    s.map_values(|e: Entry| facts(e))
}

/// `ix` is an indexing of `raw`: the same entries (apart from positions),
/// ordered by ascending name, numbered 1, 2, ... in that order.
pub open spec fn indexing_of(ix: Seq<Entry>, raw: Seq<Entry>) -> bool {
    &&& ix.len() == raw.len()
    &&& facts_of(ix).to_multiset() == facts_of(raw).to_multiset()
    &&& forall|i: int| 0 <= i < ix.len() ==> (#[trigger] ix[i]).position == i + 1
    &&& forall|i: int, j: int|
        0 <= i < j < ix.len() ==> !name_lt((#[trigger] ix[j]).name@, (#[trigger] ix[i]).name@)
}

pub(crate) proof fn lemma_map_multiset<A, B>(s1: Seq<A>, s2: Seq<A>, f: spec_fn(A) -> B)
    requires
        s1.to_multiset() == s2.to_multiset(),
    ensures
        s1.map_values(f).to_multiset() == s2.map_values(f).to_multiset(),
    decreases s1.len(),
{
    broadcast use vstd::seq_lib::group_to_multiset_ensures;

    if s1.len() == 0 {
        assert(s1.to_multiset().len() == 0);
        assert(s2.to_multiset().len() == s2.len());
        assert(s1.map_values(f) =~= s2.map_values(f));
    } else {
        let x = s1.last();
        assert(s1.to_multiset().count(x) > 0) by {
            assert(s1.contains(x)) by {
                assert(s1[s1.len() - 1] == x);
            }
        }
        assert(s2.contains(x));
        let j = choose|j: int| 0 <= j < s2.len() && s2[j] == x;
        let t1 = s1.drop_last();
        let t2 = s2.remove(j);
        assert(s1 =~= t1.push(x));
        assert(t1.to_multiset() =~= t2.to_multiset());
        lemma_map_multiset(t1, t2, f);
        assert(s1.map_values(f) =~= t1.map_values(f).push(f(x)));
        assert(t2.map_values(f) =~= s2.map_values(f).remove(j));
        assert(s2.map_values(f)[j] == f(x));
    }
}

/// Numbers the entries 1, 2, ... in ascending name order.
pub fn index_entries(raw: Vec<Entry>) -> (r: Vec<Entry>)
    ensures
        indexing_of(r@, raw@),
{
    let ghost all = raw@;
    let mut rest = raw;
    let mut tagged: Vec<Entry> = Vec::new();
    let count: usize = rest.len();
    let mut i: usize = 0;
    while i < count
        invariant
            i + rest@.len() == all.len(),
            all.len() == count,
            tagged@.len() == i,
            rest@ == all.skip(i as int),
            facts_of(tagged@) =~= facts_of(all.subrange(0, i as int)),
        decreases rest.len(),
    {
        let mut e = rest.remove(0);
        assert(rest@ =~= all.skip(i + 1));
        assert(e == all[i as int]);
        let ghost prev = tagged@;
        e.position = i + 1;
        tagged.push(e);
        assert(facts_of(tagged@) =~= facts_of(prev).push(facts(all[i as int])));
        assert(all.subrange(0, i + 1) =~= all.subrange(0, i as int).push(all[i as int]));
        i = i + 1;
    }
    assert(all.subrange(0, all.len() as int) =~= all);
    let ghost tagged_all = tagged@;
    let sorted = sort_entries(tagged, SortKey::Name);
    let ghost sorted_all = sorted@;
    proof {
        lemma_map_multiset(sorted_all, tagged_all, |e: Entry| facts(e));
        broadcast use vstd::seq_lib::group_to_multiset_ensures;
        assert(sorted_all.len() == sorted_all.to_multiset().len());
        assert(tagged_all.len() == tagged_all.to_multiset().len());
    }
    let mut rest = sorted;
    let mut out: Vec<Entry> = Vec::new();
    let mut k: usize = 0;
    while rest.len() > 0
        invariant
            k + rest@.len() == sorted_all.len(),
            sorted_all.len() == all.len(),
            all.len() <= usize::MAX,
            out@.len() == k,
            rest@ == sorted_all.skip(k as int),
            facts_of(out@) =~= facts_of(sorted_all.subrange(0, k as int)),
            forall|p: int| 0 <= p < k ==> (#[trigger] out@[p]).position == p + 1,
            forall|p: int| 0 <= p < k ==> (#[trigger] out@[p]).name@ == sorted_all[p].name@,
        decreases rest.len(),
    {
        let mut e = rest.remove(0);
        assert(rest@ =~= sorted_all.skip(k + 1));
        assert(e == sorted_all[k as int]);
        let ghost prev = out@;
        e.position = k + 1;
        out.push(e);
        assert(facts_of(out@) =~= facts_of(prev).push(facts(sorted_all[k as int])));
        assert(sorted_all.subrange(0, k + 1) =~= sorted_all.subrange(0, k as int).push(
            sorted_all[k as int],
        ));
        k = k + 1;
    }
    proof {
        assert(sorted_all.subrange(0, sorted_all.len() as int) =~= sorted_all);
        assert forall|a: int, b: int| 0 <= a < b < out@.len() implies !name_lt(
            (#[trigger] out@[b]).name@,
            (#[trigger] out@[a]).name@,
        ) by {
            assert(!precedes(sorted_all[b], sorted_all[a], SortKey::Name));
        }
    }
    out
}

/// What a listing comes to: the name at a requested position, nothing (the
/// requested position is out of range), or the table rows in display order.
#[derive(Debug)]
pub enum Listing {
    Selected(String),
    Nothing,
    Table(Vec<Entry>),
}

/// `t` is `s` sorted by `key`, then reversed where `reverse` is set.
pub open spec fn arranged(t: Seq<Entry>, s: Seq<Entry>, key: SortKey, reverse: bool) -> bool {
    let u = if reverse {
        reversed(t)
    } else {
        t
    };
    &&& key == SortKey::Keep ==> u == s
    &&& in_order(u, key)
    &&& u.to_multiset() == s.to_multiset()
}

/// The listing of indexed entries `ix`: with a request for position `k`, the
/// name of entry `k` when `1 <= k <= ix.len()`, else nothing; without one,
/// the entries that pass `queries`, sorted by `key` and then reversed where
/// `reverse` is set.
pub fn arrange_listing(
    ix: Vec<Entry>,
    queries: &Vec<String>,
    key: SortKey,
    reverse: bool,
    index: Option<usize>,
) -> (r: Listing)
    ensures
        match index {
            Some(k) => if 1 <= k <= ix@.len() {
                r == Listing::Selected(ix@[k - 1].name)
            } else {
                r == Listing::Nothing
            },
            None => r is Table && arranged(r->Table_0@, kept(ix@, queries@), key, reverse),
        },
{
    match index {
        Some(k) => {
            if 1 <= k && k <= ix.len() {
                let mut ix = ix;
                let e = ix.remove(k - 1);
                Listing::Selected(e.name)
            } else {
                Listing::Nothing
            }
        },
        None => {
            let shown = keep_matching(ix, queries);
            let sorted = sort_entries(shown, key);
            if reverse {
                let t = reverse_entries(sorted);
                assert(reversed(t@) =~= sorted@);
                Listing::Table(t)
            } else {
                Listing::Table(sorted)
            }
        },
    }
}

/// The value of ASCII digit `c`, if it is one.
pub open spec fn digit_value(c: char) -> Option<nat> {
    if c == '0' {
        Some(0)
    } else if c == '1' {
        Some(1)
    } else if c == '2' {
        Some(2)
    } else if c == '3' {
        Some(3)
    } else if c == '4' {
        Some(4)
    } else if c == '5' {
        Some(5)
    } else if c == '6' {
        Some(6)
    } else if c == '7' {
        Some(7)
    } else if c == '8' {
        Some(8)
    } else if c == '9' {
        Some(9)
    } else {
        None
    }
}

/// Every character of `s` is an ASCII digit.
pub open spec fn all_digits(s: Seq<char>) -> bool {
    forall|i: int| 0 <= i < s.len() ==> (digit_value(#[trigger] s[i]) is Some)
}

/// The number that the digits `s` spell.
pub open spec fn digits_value(s: Seq<char>) -> nat
    decreases s.len(),
{
    if s.len() == 0 {
        0
    } else {
        digits_value(s.drop_last()) * 10 + match digit_value(s.last()) {
            Some(d) => d,
            None => 0,
        }
    }
}

/// `s` without one leading `+`.
pub open spec fn unsigned_digits(s: Seq<char>) -> Seq<char> {
    if s.len() > 0 && s[0] == '+' {
        s.drop_first()
    } else {
        s
    }
}

/// The non-negative integer that `s` spells (an optional `+`, then one or
/// more ASCII digits), if it fits in `usize`.
pub open spec fn index_text_value(s: Seq<char>) -> Option<nat> {
    let d = unsigned_digits(s);
    if d.len() > 0 && all_digits(d) && digits_value(d) <= usize::MAX {
        Some(digits_value(d))
    } else {
        None
    }
}

proof fn lemma_digits_value_grows(s: Seq<char>, k: int)
    requires
        0 <= k <= s.len(),
    ensures
        digits_value(s.subrange(0, k)) <= digits_value(s),
    decreases s.len(),
{
    if k < s.len() {
        assert(s.drop_last() =~= s.subrange(0, s.len() - 1));
        lemma_digits_value_grows(s.drop_last(), k);
        assert(s.drop_last().subrange(0, k) =~= s.subrange(0, k));
    } else {
        assert(s.subrange(0, k) =~= s);
    }
}

fn digit_of(c: char) -> (r: Option<usize>)
    ensures
        match digit_value(c) {
            Some(d) => r == Some(d as usize),
            None => r is None,
        },
{
    match c {
        '0' => Some(0),
        '1' => Some(1),
        '2' => Some(2),
        '3' => Some(3),
        '4' => Some(4),
        '5' => Some(5),
        '6' => Some(6),
        '7' => Some(7),
        '8' => Some(8),
        '9' => Some(9),
        _ => None,
    }
}

/// Reads `s` as a non-negative integer, as `usize`'s `from_str` does: an
/// optional `+`, then one or more ASCII digits, with a value that fits.
pub fn parse_index(s: &str) -> (r: Option<usize>)
    ensures
        match index_text_value(s@) {
            Some(n) => r == Some(n as usize),
            None => r is None,
        },
{
    let len = s.unicode_len();
    let mut start: usize = 0;
    if len > 0 && s.get_char(0) == '+' {
        start = 1;
    }
    let ghost d = unsigned_digits(s@);
    assert(d =~= s@.subrange(start as int, len as int));
    if start >= len {
        return None;
    }
    let mut i: usize = start;
    let mut value: usize = 0;
    while i < len
        invariant
            start <= i <= len,
            len == s@.len(),
            d == s@.subrange(start as int, len as int),
            d == unsigned_digits(s@),
            all_digits(d.subrange(0, i - start)),
            value == digits_value(d.subrange(0, i - start)),
        decreases len - i,
    {
        let c = s.get_char(i);
        let ghost pre = d.subrange(0, i - start);
        let ghost next = d.subrange(0, i + 1 - start);
        assert(next.drop_last() =~= pre);
        assert(next.last() == c);
        match digit_of(c) {
            None => {
                assert(!all_digits(d)) by {
                    assert(d[i - start] == c);
                }
                assert(unsigned_digits(s@) == d);
                assert(index_text_value(s@) is None);
                return None;
            },
            Some(dv) => {
                if value > (usize::MAX - dv) / 10 {
                    proof {
                        lemma_digits_value_grows(d, i + 1 - start);
                        assert(digits_value(next) == value * 10 + dv);
                        assert(value * 10 + dv > usize::MAX) by (nonlinear_arith)
                            requires
                                value > (usize::MAX - dv) / 10,
                                dv < 10,
                        ;
                        assert(unsigned_digits(s@) == d);
                        assert(index_text_value(s@) is None);
                    }
                    return None;
                }
                value = value * 10 + dv;
                assert forall|p: int| 0 <= p < next.len() implies (digit_value(
                    #[trigger] next[p],
                ) is Some) by {
                    if p < next.len() - 1 {
                        assert(next[p] == pre[p]);
                    }
                }
            },
        }
        i = i + 1;
    }
    assert(d.subrange(0, len - start) =~= d);
    Some(value)
}

/// The path a listing runs on: where `path` reads as a position `k` among
/// the indexed entries `here` of the current directory, `./` followed by the
/// name of entry `k`; else `path` itself.
pub fn resolve_target(path: &str, here: &Vec<Entry>) -> (r: String)
    ensures
        r@ == match index_text_value(path@) {
            Some(k) => if 1 <= k <= here@.len() {
                seq!['.', '/'] + here@[k - 1].name@
            } else {
                path@
            },
            None => path@,
        },
{
    match parse_index(path) {
        Some(k) => {
            if 1 <= k && k <= here.len() {
                let mut r = String::from_str("./");
                proof {
                    reveal_strlit("./");
                    assert("./"@ =~= seq!['.', '/']);
                }
                r.append(here[k - 1].name.as_str());
                r
            } else {
                String::from_str(path)
            }
        },
        None => String::from_str(path),
    }
}

} // verus!
