use vstd::prelude::*;
use vstd::multiset::Multiset;
use vstd::string::*;

verus! {

/// A modification time: the instant (seconds and nanoseconds since the Unix
/// epoch) that orders entries, and the local wall-clock fields that are shown.
#[derive(Clone, Copy, Debug)]
pub struct Stamp {
    pub secs: i64,
    pub nanos: u32,
    pub year: i32,
    pub month: u32,
    pub day: u32,
    pub hour: u32,
    pub minute: u32,
    pub second: u32,
}

/// One scanned child: its name, its metric (child count of a directory, byte
/// length of a file), its modification time, and the 1-based position that
/// indexing gives it (0 before indexing).
#[derive(Debug)]
pub struct Entry {
    pub position: usize,
    pub name: String,
    pub metric: u64,
    pub modified: Stamp,
}

/// The criterion a listing is sorted by; `Keep` leaves the order as it is.
#[derive(Clone, Copy, Debug, PartialEq, Eq, Structural)]
pub enum SortKey {
    Name,
    Metric,
    Modified,
    Keep,
}

/// Lexicographic order on names, character by character (by code point),
/// where a proper prefix comes first.
pub open spec fn name_lt(a: Seq<char>, b: Seq<char>) -> bool
    decreases a.len(),
{
    if b.len() == 0 {
        false
    } else if a.len() == 0 {
        true
    } else if a[0] != b[0] {
        (a[0] as int) < (b[0] as int)
    } else {
        name_lt(a.drop_first(), b.drop_first())
    }
}

pub proof fn lemma_name_lt_irreflexive(a: Seq<char>)
    ensures
        !name_lt(a, a),
    decreases a.len(),
{
    if a.len() > 0 {
        lemma_name_lt_irreflexive(a.drop_first());
    }
}

pub proof fn lemma_name_lt_transitive(a: Seq<char>, b: Seq<char>, c: Seq<char>)
    requires
        name_lt(a, b),
        name_lt(b, c),
    ensures
        name_lt(a, c),
    decreases a.len(),
{
    if a.len() > 0 && b.len() > 0 && c.len() > 0 && a[0] == b[0] && b[0] == c[0] {
        lemma_name_lt_transitive(a.drop_first(), b.drop_first(), c.drop_first());
    }
}

pub proof fn lemma_name_lt_total(a: Seq<char>, b: Seq<char>)
    requires
        a != b,
    ensures
        name_lt(a, b) || name_lt(b, a),
    decreases a.len(),
{
    if a.len() > 0 && b.len() > 0 {
        if a[0] == b[0] {
            if a.drop_first() == b.drop_first() {
                assert(a =~= seq![a[0]] + a.drop_first());
                assert(b =~= seq![b[0]] + b.drop_first());
            }
            lemma_name_lt_total(a.drop_first(), b.drop_first());
        } else {
        }
    } else if a.len() == 0 && b.len() == 0 {
        assert(a =~= b);
    }
}

/// Whether `a` is strictly before `b` in name order.
pub fn name_less(a: &str, b: &str) -> (r: bool)
    ensures
        r == name_lt(a@, b@),
{
    let la = a.unicode_len();
    let lb = b.unicode_len();
    let mut i: usize = 0;
    assert(a@.skip(0) =~= a@ && b@.skip(0) =~= b@);
    while i < la && i < lb
        invariant
            la == a@.len(),
            lb == b@.len(),
            i <= la,
            i <= lb,
            name_lt(a@, b@) == name_lt(a@.skip(i as int), b@.skip(i as int)),
        decreases la - i,
    {
        let ca = a.get_char(i);
        let cb = b.get_char(i);
        assert(a@.skip(i as int)[0] == ca && b@.skip(i as int)[0] == cb);
        if ca != cb {
            return (ca as u32) < (cb as u32);
        }
        assert(a@.skip(i as int).drop_first() =~= a@.skip(i + 1));
        assert(b@.skip(i as int).drop_first() =~= b@.skip(i + 1));
        i = i + 1;
    }
    i < lb
}

/// `a` is strictly later than `b`.
pub open spec fn later(a: Stamp, b: Stamp) -> bool {
    a.secs > b.secs || (a.secs == b.secs && a.nanos > b.nanos)
}

/// `a` and `b` stand for the same instant.
pub open spec fn same_instant(a: Stamp, b: Stamp) -> bool {
    a.secs == b.secs && a.nanos == b.nanos
}

/// Whether `a` goes strictly before `b` under `key`: names ascend, metrics
/// and modification times descend, and equal keys keep position order.
pub open spec fn precedes(a: Entry, b: Entry, key: SortKey) -> bool {
    match key {
        SortKey::Name => name_lt(a.name@, b.name@) || (a.name@ == b.name@ && a.position
            < b.position),
        SortKey::Metric => a.metric > b.metric || (a.metric == b.metric && a.position
            < b.position),
        SortKey::Modified => later(a.modified, b.modified) || (same_instant(
            a.modified,
            b.modified,
        ) && a.position < b.position),
        SortKey::Keep => false,
    }
}

/// No entry of `s` is preceded under `key` by one that stands after it.
pub open spec fn in_order(s: Seq<Entry>, key: SortKey) -> bool {
    forall|i: int, j: int| 0 <= i < j < s.len() ==> !precedes(#[trigger] s[j], #[trigger] s[i], key)
}

pub proof fn lemma_precedes_irreflexive(a: Entry, key: SortKey)
    ensures
        !precedes(a, a, key),
{
    lemma_name_lt_irreflexive(a.name@);
}

pub proof fn lemma_precedes_transitive(a: Entry, b: Entry, c: Entry, key: SortKey)
    requires
        precedes(a, b, key),
        precedes(b, c, key),
    ensures
        precedes(a, c, key),
{
    if key == SortKey::Name {
        if name_lt(a.name@, b.name@) && name_lt(b.name@, c.name@) {
            lemma_name_lt_transitive(a.name@, b.name@, c.name@);
        }
    }
}

/// Executable form of `precedes`.
pub fn goes_before(a: &Entry, b: &Entry, key: SortKey) -> (r: bool)
    ensures
        r == precedes(*a, *b, key),
{
    match key {
        SortKey::Name => {
            if name_less(a.name.as_str(), b.name.as_str()) {
                true
            } else if name_less(b.name.as_str(), a.name.as_str()) {
                false
            } else {
                proof {
                    if a.name@ != b.name@ {
                        lemma_name_lt_total(a.name@, b.name@);
                    }
                }
                a.position < b.position
            }
        },
        SortKey::Metric => a.metric > b.metric || (a.metric == b.metric && a.position
            < b.position),
        SortKey::Modified => a.modified.secs > b.modified.secs || (a.modified.secs
            == b.modified.secs && (a.modified.nanos > b.modified.nanos || (a.modified.nanos
            == b.modified.nanos && a.position < b.position))),
        SortKey::Keep => false,
    }
}

/// Sorts `v` by `key` (a stable insertion sort, since equal keys fall back on
/// positions); `Keep` returns `v` unchanged.
pub fn sort_entries(v: Vec<Entry>, key: SortKey) -> (r: Vec<Entry>)
    ensures
        key == SortKey::Keep ==> r@ == v@,
        in_order(r@, key),
        r@.to_multiset() == v@.to_multiset(),
{
    if key == SortKey::Keep {
        return v;
    }
    let ghost all = v@;
    let mut rest = v;
    let mut out: Vec<Entry> = Vec::new();
    proof {
        broadcast use vstd::seq_lib::group_to_multiset_ensures;
        assert(out@.to_multiset() =~= Multiset::empty());
        assert(out@.to_multiset().add(rest@.to_multiset()) =~= all.to_multiset());
    }
    while rest.len() > 0
        invariant
            in_order(out@, key),
            out@.to_multiset().add(rest@.to_multiset()) == all.to_multiset(),
        decreases rest.len(),
    {
        let ghost before_rest = rest@;
        let e = rest.remove(0);
        let mut j: usize = 0;
        while j < out.len() && !goes_before(&e, &out[j], key)
            invariant
                j <= out.len(),
                forall|k: int| 0 <= k < j ==> !precedes(e, #[trigger] out@[k], key),
            decreases out.len() - j,
        {
            j = j + 1;
        }
        let ghost prev = out@;
        out.insert(j, e);
        proof {
            broadcast use vstd::seq_lib::group_to_multiset_ensures;
            vstd::seq_lib::to_multiset_insert(prev, j as int, e);
            assert(before_rest.to_multiset() =~= rest@.to_multiset().insert(e)) by {
                assert(before_rest.remove(0) == rest@);
            }
            assert(out@.to_multiset().add(rest@.to_multiset()) =~= all.to_multiset());
            assert forall|a: int, b: int| 0 <= a < b < out@.len() implies !precedes(
                #[trigger] out@[b],
                #[trigger] out@[a],
                key,
            ) by {
                if a < j && b == j {
                } else if a == j {
                    if precedes(out@[b], e, key) {
                        lemma_precedes_transitive(prev[b - 1], e, prev[j as int], key);
                        if b - 1 == j {
                            lemma_precedes_irreflexive(prev[j as int], key);
                        }
                    }
                } else if b < j {
                    assert(out@[a] == prev[a] && out@[b] == prev[b]);
                } else if a < j {
                    assert(out@[a] == prev[a] && out@[b] == prev[b - 1]);
                } else {
                    assert(out@[a] == prev[a - 1] && out@[b] == prev[b - 1]);
                }
            }
        }
    }
    proof {
        assert(rest@ =~= Seq::<Entry>::empty());
        broadcast use vstd::seq_lib::group_to_multiset_ensures;
        assert(out@.to_multiset().add(rest@.to_multiset()) =~= out@.to_multiset());
    }
    out
}

/// The elements of `s` in reverse order.
pub open spec fn reversed<T>(s: Seq<T>) -> Seq<T> {
    Seq::new(s.len(), |i: int| s[s.len() - 1 - i])
}

/// Reverses `v`.
pub fn reverse_entries(v: Vec<Entry>) -> (r: Vec<Entry>)
    ensures
        r@ == reversed(v@),
{
    let ghost all = v@;
    let mut rest = v;
    let mut out: Vec<Entry> = Vec::new();
    while rest.len() > 0
        invariant
            rest@ == all.subrange(0, rest@.len() as int),
            rest@.len() <= all.len(),
            out@ =~= reversed(all).subrange(0, all.len() - rest@.len()),
        decreases rest.len(),
    {
        let e = rest.pop().unwrap();
        out.push(e);
    }
    assert(out@ =~= reversed(all));
    out
}

} // verus!
