use vstd::prelude::*;
use vstd::string::*;

verus! {

/// The parts of a search-path list `s`, split at every `:`; an empty list,
/// or one that ends in `:`, has an empty last part.
pub open spec fn path_parts(s: Seq<char>) -> Seq<Seq<char>>
    decreases s.len(),
{
    if s.len() == 0 {
        seq![Seq::<char>::empty()]
    } else {
        let rest = path_parts(s.drop_last());
        if s.last() == ':' {
            rest.push(Seq::<char>::empty())
        } else {
            rest.update(rest.len() - 1, rest.last().push(s.last()))
        }
    }
}

/// The text of each string of `v`.
pub open spec fn texts(v: Seq<String>) -> Seq<Seq<char>> {
    v.map_values(|x: String| x@)
}

proof fn lemma_path_parts_nonempty(s: Seq<char>)
    ensures
        path_parts(s).len() >= 1,
    decreases s.len(),
{
    if s.len() > 0 {
        lemma_path_parts_nonempty(s.drop_last());
    }
}

/// Splits a search-path list such as `PATH` at every `:`.
pub fn split_path_list(s: &str) -> (r: Vec<String>)
    ensures
        texts(r@) == path_parts(s@),
{
    let len = s.unicode_len();
    let mut out: Vec<String> = Vec::new();
    let mut start: usize = 0;
    let mut i: usize = 0;
    assert(s@.subrange(0, 0) =~= Seq::<char>::empty());
    assert(texts(out@).push(s@.subrange(0, 0)) =~= path_parts(s@.subrange(0, 0)));
    while i < len
        invariant
            start <= i <= len,
            len == s@.len(),
            texts(out@).push(s@.subrange(start as int, i as int)) == path_parts(
                s@.subrange(0, i as int),
            ),
        decreases len - i,
    {
        let c = s.get_char(i);
        let ghost pre = s@.subrange(0, i as int);
        let ghost next = s@.subrange(0, i + 1);
        assert(next.drop_last() =~= pre);
        assert(next.last() == c);
        proof {
            lemma_path_parts_nonempty(pre);
        }
        if c == ':' {
            let ghost before = texts(out@);
            let ghost seg = s@.subrange(start as int, i as int);
            out.push(String::from_str(s.substring_char(start, i)));
            start = i + 1;
            assert(texts(out@) =~= before.push(seg));
            assert(s@.subrange(start as int, i + 1) =~= Seq::<char>::empty());
            assert(texts(out@).push(s@.subrange(start as int, i + 1)) =~= path_parts(next));
        } else {
            assert(s@.subrange(start as int, i + 1) =~= s@.subrange(start as int, i as int).push(c));
            assert(texts(out@).push(s@.subrange(start as int, i + 1)) =~= path_parts(next));
        }
        i = i + 1;
    }
    let ghost before = texts(out@);
    out.push(String::from_str(s.substring_char(start, len)));
    assert(texts(out@) =~= before.push(s@.subrange(start as int, len as int)));
    assert(s@.subrange(0, len as int) =~= s@);
    out
}

} // verus!
