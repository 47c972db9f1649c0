//! Semantic memory: the keyword side of fact search.
use vstd::prelude::*;
use crate::recall::{cleaned, clean_context, string_views};
use crate::text::{words, split_whitespace_str};
use crate::fusion::{join, join_strings};

verus! {

/// The full-text match query for a search: each word of the query (punctuation read as
/// space) as a prefix term, space separated; `None` when the query has no word.
pub open spec fn match_query_spec(query: Seq<char>) -> Option<Seq<char>> {
    let ws = words(cleaned(query));
    if ws.len() == 0 {
        None
    } else {
        Some(join(ws.map_values(|w: Seq<char>| w + "*"@), " "@))
    }
}

/// The full-text match query for `query` (see `match_query_spec`).
pub fn match_query(query: &str) -> (r: Option<String>)
    ensures
        match r {
            Some(s) => match_query_spec(query@) == Some(s@),
            None => match_query_spec(query@) is None,
        },
{
    let clean = clean_context(query);
    let ws = split_whitespace_str(clean.as_str());
    if ws.len() == 0 {
        return None;
    }
    let ghost wv = string_views(ws@);
    let mut terms: Vec<String> = Vec::new();
    let mut i: usize = 0;
    while i < ws.len()
        invariant
            i <= ws.len(),
            wv == string_views(ws@),
            string_views(terms@) == wv.take(i as int).map_values(|w: Seq<char>| w + "*"@),
        decreases ws.len() - i,
    {
        let mut t = ws[i].clone();
        t.append("*");
        let ghost before = string_views(terms@);
        terms.push(t);
        proof {
            assert(string_views(terms@) =~= before.push(wv[i as int] + "*"@));
            assert(wv.take(i + 1).map_values(|w: Seq<char>| w + "*"@) =~= wv.take(i as int).map_values(|w: Seq<char>| w + "*"@).push(wv[i as int] + "*"@));
        }
        i += 1;
    }
    assert(wv.take(ws.len() as int) =~= wv);
    Some(join_strings(&terms, " "))
}

} // verus!
