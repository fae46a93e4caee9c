//! Finding the lines of a text that contain a query.
use vstd::prelude::*;

use crate::text::{contains_str, has_substring, lemma_empty_is_substring, lines, lines_of, views};

verus! {

/// What `str::to_lowercase` makes of a text.
pub uninterp spec fn lower_of(s: Seq<char>) -> Seq<char>;

/// Relies on `str::to_lowercase`: the lowercase form of `s`, which depends on
/// the characters of `s` alone; the empty text stays empty.
#[verifier::external_body]
fn lowercase(s: &str) -> (r: String)
    ensures
        r@ == lower_of(s@),
        s@.len() == 0 ==> r@.len() == 0,
{
    s.to_lowercase()
}

/// A line is kept when it holds `query` exactly.
pub open spec fn contains_query(query: Seq<char>) -> spec_fn(Seq<char>) -> bool {
    |l: Seq<char>| has_substring(l, query)
}

/// A line is kept when its lowercase form holds the lowercase form of `query`.
pub open spec fn contains_query_ignore_case(query: Seq<char>) -> spec_fn(Seq<char>) -> bool {
    |l: Seq<char>| has_substring(lower_of(l), lower_of(query))
}

/// The lines of `contents` that hold `query`, in their order.
pub open spec fn matching_lines(query: Seq<char>, contents: Seq<char>) -> Seq<Seq<char>> {
    lines_of(contents).filter(contains_query(query))
}

/// The lines of `contents` that hold `query` when both are lowercased, in
/// their order.
pub open spec fn matching_lines_ignore_case(query: Seq<char>, contents: Seq<char>) -> Seq<
    Seq<char>,
> {
    lines_of(contents).filter(contains_query_ignore_case(query))
}

/// `idx` gives, for each element of `a`, a position of `b` that holds it,
/// the positions rising strictly.
pub open spec fn picks(a: Seq<Seq<char>>, b: Seq<Seq<char>>, idx: Seq<int>) -> bool {
    &&& idx.len() == a.len()
    &&& forall|k: int| 0 <= k < a.len() ==> 0 <= #[trigger] idx[k] < b.len()
    &&& forall|k: int| 0 <= k < a.len() ==> a[k] == b[#[trigger] idx[k]]
    &&& forall|k1: int, k2: int| 0 <= k1 < k2 < a.len() ==> #[trigger] idx[k1] < #[trigger] idx[k2]
}

/// `a` is made of elements of `b` taken in their order in `b`.
pub open spec fn is_subsequence(a: Seq<Seq<char>>, b: Seq<Seq<char>>) -> bool {
    exists|idx: Seq<int>| picks(a, b, idx)
}

proof fn lemma_filter_all(s: Seq<Seq<char>>, p: spec_fn(Seq<char>) -> bool)
    requires
        forall|i: int| 0 <= i < s.len() ==> p(#[trigger] s[i]),
    ensures
        s.filter(p) == s,
    decreases s.len(),
{
    reveal(Seq::filter);
    if s.len() > 0 {
        lemma_filter_all(s.drop_last(), p);
        assert(s =~= s.drop_last().push(s.last()));
    }
}

proof fn lemma_filter_is_subsequence(s: Seq<Seq<char>>, p: spec_fn(Seq<char>) -> bool)
    ensures
        is_subsequence(s.filter(p), s),
    decreases s.len(),
{
    reveal(Seq::filter);
    if s.len() == 0 {
        assert(picks(s.filter(p), s, Seq::<int>::empty()));
    } else {
        let rest = s.drop_last();
        lemma_filter_is_subsequence(rest, p);
        let f = rest.filter(p);
        let idx = choose|idx: Seq<int>| picks(f, rest, idx);
        if p(s.last()) {
            let idx2 = idx.push(rest.len() as int);
            let g = s.filter(p);
            assert(g == f.push(s.last()));
            assert forall|k: int| 0 <= k < g.len() implies 0 <= #[trigger] idx2[k] < s.len()
                && g[k] == s[idx2[k]] by {
                if k < f.len() {
                    assert(idx2[k] == idx[k]);
                }
            }
            assert forall|k1: int, k2: int|
                0 <= k1 < k2 < g.len() implies #[trigger] idx2[k1] < #[trigger] idx2[k2] by {
                assert(idx2[k1] == idx[k1]);
                if k2 < f.len() {
                    assert(idx2[k2] == idx[k2]);
                }
            }
            assert(picks(g, s, idx2));
        } else {
            assert forall|k: int| 0 <= k < f.len() implies f[k] == s[#[trigger] idx[k]] by {
                assert(f[k] == rest[idx[k]]);
            }
            assert(picks(f, s, idx));
        }
    }
}

proof fn lemma_filter_of_filter(
    s: Seq<Seq<char>>,
    p: spec_fn(Seq<char>) -> bool,
    q: spec_fn(Seq<char>) -> bool,
)
    requires
        forall|i: int| 0 <= i < s.len() && p(#[trigger] s[i]) ==> q(s[i]),
    ensures
        s.filter(p) == s.filter(q).filter(p),
    decreases s.len(),
{
    reveal(Seq::filter);
    if s.len() > 0 {
        let rest = s.drop_last();
        assert forall|i: int| 0 <= i < rest.len() && p(#[trigger] rest[i]) implies q(rest[i]) by {
            assert(rest[i] == s[i]);
        }
        lemma_filter_of_filter(rest, p, q);
        if q(s.last()) {
            rest.filter(q).lemma_filter_push(s.last(), p);
        }
    }
}

/// Every line that the exact search returns holds the query, and a line of
/// the text is among those returned exactly when it holds the query.
pub proof fn lemma_search_exact(query: Seq<char>, contents: Seq<char>)
    ensures
        forall|i: int|
            0 <= i < matching_lines(query, contents).len() ==> has_substring(
                #[trigger] matching_lines(query, contents)[i],
                query,
            ),
        forall|j: int|
            0 <= j < lines_of(contents).len() ==> (has_substring(
                #[trigger] lines_of(contents)[j],
                query,
            ) <==> matching_lines(query, contents).contains(lines_of(contents)[j])),
{
    let ls = lines_of(contents);
    let m = matching_lines(query, contents);
    let p = contains_query(query);
    assert forall|i: int| 0 <= i < m.len() implies has_substring(#[trigger] m[i], query) by {
        ls.lemma_filter_pred(p, i);
    }
    assert forall|j: int| 0 <= j < ls.len() implies (has_substring(#[trigger] ls[j], query)
        <==> m.contains(ls[j])) by {
        if has_substring(ls[j], query) {
            ls.lemma_filter_contains(p, j);
        }
        if m.contains(ls[j]) {
            let k = choose|k: int| 0 <= k < m.len() && m[k] == ls[j];
            ls.lemma_filter_pred(p, k);
        }
    }
}

/// Both searches return lines of the text, with their own text, in the order
/// in which they stand in it.
pub proof fn lemma_search_keeps_order(query: Seq<char>, contents: Seq<char>)
    ensures
        is_subsequence(matching_lines(query, contents), lines_of(contents)),
        is_subsequence(matching_lines_ignore_case(query, contents), lines_of(contents)),
{
    lemma_filter_is_subsequence(lines_of(contents), contains_query(query));
    lemma_filter_is_subsequence(lines_of(contents), contains_query_ignore_case(query));
}

/// Where lowercasing keeps every exact occurrence of the query in a line of
/// the text, the search that ignores case returns every line that the exact
/// search returns: the exact result is the other one with the lines that do
/// not hold the query exactly taken out.
pub proof fn lemma_ignore_case_keeps_exact_matches(query: Seq<char>, contents: Seq<char>)
    requires
        forall|j: int|
            0 <= j < lines_of(contents).len() && has_substring(
                #[trigger] lines_of(contents)[j],
                query,
            ) ==> has_substring(lower_of(lines_of(contents)[j]), lower_of(query)),
    ensures
        matching_lines(query, contents) == matching_lines_ignore_case(query, contents).filter(
            contains_query(query),
        ),
        forall|i: int|
            0 <= i < matching_lines(query, contents).len() ==> matching_lines_ignore_case(
                query,
                contents,
            ).contains(#[trigger] matching_lines(query, contents)[i]),
{
    let ls = lines_of(contents);
    let p = contains_query(query);
    let q = contains_query_ignore_case(query);
    lemma_filter_of_filter(ls, p, q);
    let m = matching_lines(query, contents);
    let ci = matching_lines_ignore_case(query, contents);
    assert forall|i: int| 0 <= i < m.len() implies ci.contains(#[trigger] m[i]) by {
        assert(ci.filter(p)[i] == m[i]);
        assert(ci.filter(p).contains(m[i]));
        ci.lemma_filter_contains_rev(p, m[i]);
    }
}

/// The lines of `contents` that contain `query`, compared character for
/// character, as slices of `contents` in their order.
pub fn search<'a>(query: &str, contents: &'a str) -> (r: Vec<&'a str>)
    ensures
        views(r@) == matching_lines(query@, contents@),
        query@.len() == 0 ==> views(r@) == lines_of(contents@),
{
    let all = lines(contents);
    let mut out: Vec<&'a str> = Vec::new();
    let mut j: usize = 0;
    while j < all.len()
        invariant
            j <= all@.len(),
            views(all@) == lines_of(contents@),
            views(out@) == views(all@.take(j as int)).filter(contains_query(query@)),
        decreases all@.len() - j,
    {
        let line = all[j];
        let ghost old_out = out@;
        if contains_str(line, query) {
            out.push(line);
            proof {
                old_out.lemma_push_map_commute(|l: &str| l@, line);
            }
        }
        proof {
            assert(all@.take(j + 1) =~= all@.take(j as int).push(line));
            all@.take(j as int).lemma_push_map_commute(|l: &str| l@, line);
            views(all@.take(j as int)).lemma_filter_push(line@, contains_query(query@));
        }
        j = j + 1;
    }
    proof {
        assert(all@.take(j as int) =~= all@);
        if query@.len() == 0 {
            let ls = lines_of(contents@);
            assert(query@ =~= Seq::<char>::empty());
            assert forall|i: int| 0 <= i < ls.len() implies contains_query(query@)(
                #[trigger] ls[i],
            ) by {
                lemma_empty_is_substring(ls[i]);
            }
            lemma_filter_all(ls, contains_query(query@));
        }
    }
    out
}

/// The lines of `contents` that contain `query` when both are lowercased,
/// as slices of `contents` in their order and with their own case.
pub fn search_case_insensitive<'a>(query: &str, contents: &'a str) -> (r: Vec<&'a str>)
    ensures
        views(r@) == matching_lines_ignore_case(query@, contents@),
        query@.len() == 0 ==> views(r@) == lines_of(contents@),
{
    let folded_query = lowercase(query);
    let all = lines(contents);
    let mut out: Vec<&'a str> = Vec::new();
    let mut j: usize = 0;
    while j < all.len()
        invariant
            j <= all@.len(),
            folded_query@ == lower_of(query@),
            views(all@) == lines_of(contents@),
            views(out@) == views(all@.take(j as int)).filter(
                contains_query_ignore_case(query@),
            ),
        decreases all@.len() - j,
    {
        let line = all[j];
        let ghost old_out = out@;
        let folded_line = lowercase(line);
        if contains_str(folded_line.as_str(), folded_query.as_str()) {
            out.push(line);
            proof {
                old_out.lemma_push_map_commute(|l: &str| l@, line);
            }
        }
        proof {
            assert(all@.take(j + 1) =~= all@.take(j as int).push(line));
            all@.take(j as int).lemma_push_map_commute(|l: &str| l@, line);
            views(all@.take(j as int)).lemma_filter_push(
                line@,
                contains_query_ignore_case(query@),
            );
        }
        j = j + 1;
    }
    proof {
        assert(all@.take(j as int) =~= all@);
        if query@.len() == 0 {
            let ls = lines_of(contents@);
            assert(folded_query@ =~= Seq::<char>::empty());
            assert forall|i: int| 0 <= i < ls.len() implies contains_query_ignore_case(query@)(
                #[trigger] ls[i],
            ) by {
                lemma_empty_is_substring(lower_of(ls[i]));
            }
            lemma_filter_all(ls, contains_query_ignore_case(query@));
        }
    }
    out
}

} // verus!
