use vstd::prelude::*;

use crate::entry::Entry;

verus! {

/// The characters that have a meaning in a regular expression.
pub open spec fn is_meta(c: char) -> bool {
    c == '\\' || c == '.' || c == '+' || c == '*' || c == '?' || c == '(' || c == ')' || c
        == '|' || c == '[' || c == ']' || c == '{' || c == '}' || c == '^' || c == '$' || c
        == '#' || c == '&' || c == '-' || c == '~'
}

/// `q` with a backslash before each meta character: a pattern that matches
/// `q` literally.
pub open spec fn escaped(q: Seq<char>) -> Seq<char>
    decreases q.len(),
{
    if q.len() == 0 {
        q
    } else if is_meta(q.last()) {
        escaped(q.drop_last()) + seq!['\\', q.last()]
    } else {
        escaped(q.drop_last()).push(q.last())
    }
}

/// Whether `regex::Regex::new(pattern)` compiles and then finds a match
/// anywhere in `text` (false where it does not compile).
pub uninterp spec fn regex_finds(pattern: Seq<char>, text: Seq<char>) -> bool;

/// Relies on `regex::escape`: it returns `q` with a backslash before each
/// meta character (`is_meta`), so that the result matches `q` literally.
#[verifier::external_body]
fn escape_literal(q: &str) -> (r: String)
    ensures
        r@ == escaped(q@),
{
    regex::escape(q)
}

/// Relies on `regex::Regex::new` and `regex::Regex::is_match`: compile
/// `pattern`, then tell whether it matches somewhere in `text`. A pattern
/// that does not compile (invalid, or over the default size limit) matches
/// nothing.
#[verifier::external_body]
fn regex_search(pattern: &str, text: &str) -> (r: bool)
    ensures
        r == regex_finds(pattern@, text@),
{
    match regex::Regex::new(pattern) {
        Ok(re) => re.is_match(text),
        Err(_) => false,
    }
}

/// The case-insensitivity flag that starts every query pattern.
pub open spec fn ci_flag() -> Seq<char> {
    seq!['(', '?', 'i', ')']
}

/// `q` occurs in `name` ignoring case: the escaped query, compiled with the
/// case-insensitive flag, matches `name`.
pub open spec fn query_hit(q: Seq<char>, name: Seq<char>) -> bool {
    regex_finds(ci_flag() + escaped(q), name)
}

/// `name` passes the queries: there are none, or one of them occurs in it.
pub open spec fn survives(queries: Seq<String>, name: Seq<char>) -> bool {
    queries.len() == 0 || exists|i: int| 0 <= i < queries.len() && query_hit(#[trigger] queries[i]@, name)
}

/// The entries of `s` whose names pass the queries, in their order.
pub open spec fn kept(s: Seq<Entry>, queries: Seq<String>) -> Seq<Entry> {
    s.filter(|e: Entry| survives(queries, e.name@))
}

/// Whether `q` occurs in `name` ignoring case.
pub fn query_matches(q: &str, name: &str) -> (r: bool)
    ensures
        r == query_hit(q@, name@),
{
    let mut pattern = String::from_str("(?i)");
    proof {
        reveal_strlit("(?i)");
        assert("(?i)"@ =~= ci_flag());
    }
    let esc = escape_literal(q);
    pattern.append(esc.as_str());
    regex_search(pattern.as_str(), name)
}

/// Whether a name passes, given for each query whether it occurs in the
/// name: true when there are no queries, else when one of them occurs.
pub fn passes(hits: &Vec<bool>) -> (r: bool)
    ensures
        r == (hits@.len() == 0 || exists|i: int| 0 <= i < hits@.len() && hits@[i]),
{
    if hits.len() == 0 {
        return true;
    }
    let mut i: usize = 0;
    while i < hits.len()
        invariant
            i <= hits@.len(),
            forall|k: int| 0 <= k < i ==> !hits@[k],
        decreases hits.len() - i,
    {
        if hits[i] {
            return true;
        }
        i = i + 1;
    }
    false
}

/// Whether `name` passes `queries`: true when there are none, else when one
/// of them occurs in `name` ignoring case.
pub fn matches_any(queries: &Vec<String>, name: &str) -> (r: bool)
    ensures
        r == survives(queries@, name@),
{
    let mut hits: Vec<bool> = Vec::new();
    let mut i: usize = 0;
    while i < queries.len()
        invariant
            i <= queries@.len(),
            hits@.len() == i,
            forall|k: int| 0 <= k < i ==> hits@[k] == query_hit(#[trigger] queries@[k]@, name@),
        decreases queries.len() - i,
    {
        hits.push(query_matches(queries[i].as_str(), name));
        i = i + 1;
    }
    let r = passes(&hits);
    assert(r == survives(queries@, name@)) by {
        if r && queries@.len() > 0 {
            let k = choose|k: int| 0 <= k < hits@.len() && hits@[k];
            assert(query_hit(queries@[k]@, name@));
        }
    }
    r
}

proof fn lemma_kept_push(s: Seq<Entry>, queries: Seq<String>, k: int)
    requires
        0 <= k < s.len(),
    ensures
        kept(s.subrange(0, k + 1), queries) == if survives(queries, s[k].name@) {
            kept(s.subrange(0, k), queries).push(s[k])
        } else {
            kept(s.subrange(0, k), queries)
        },
{
    reveal(Seq::filter);
    assert(s.subrange(0, k + 1).drop_last() =~= s.subrange(0, k));
}

/// The entries of `v` whose names pass `queries`, in their order.
pub fn keep_matching(v: Vec<Entry>, queries: &Vec<String>) -> (r: Vec<Entry>)
    ensures
        r@ == kept(v@, queries@),
{
    let ghost all = v@;
    let mut rest = v;
    let mut out: Vec<Entry> = Vec::new();
    proof {
        reveal(Seq::filter);
        assert(all.subrange(0, 0) =~= Seq::<Entry>::empty());
    }
    while rest.len() > 0
        invariant
            rest@.len() <= all.len(),
            rest@ == all.skip(all.len() - rest@.len()),
            out@ == kept(all.subrange(0, all.len() - rest@.len()), queries@),
        decreases rest.len(),
    {
        let ghost k = all.len() - rest@.len();
        let e = rest.remove(0);
        assert(e == all[k]);
        assert(rest@ =~= all.skip(k + 1));
        proof {
            lemma_kept_push(all, queries@, k);
        }
        if matches_any(queries, e.name.as_str()) {
            out.push(e);
        }
    }
    assert(all.subrange(0, all.len() as int) =~= all);
    out
}

} // verus!
