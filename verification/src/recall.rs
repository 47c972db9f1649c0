//! Proactive recall: keyword extraction from the agent's current context.
use vstd::prelude::*;
use crate::text::{unicode_alphanumeric, unicode_whitespace, unicode_lowercase, words};
use crate::wordlists::{short_stop_words, short_stop_word_list, listed};
use crate::dedup::byte_len;

verus! {

/// Characters that are neither alphanumeric nor whitespace read as a space.
pub open spec fn clean_char(c: char) -> char {
    if unicode_alphanumeric(c) || unicode_whitespace(c) {
        c
    } else {
        ' '
    }
}

/// The context with punctuation replaced by spaces.
pub open spec fn cleaned(s: Seq<char>) -> Seq<char> {
    s.map_values(|c: char| clean_char(c))
}

/// A lowercased word is kept as a keyword when it has at least three bytes and is no stop word.
pub open spec fn keyword_ok(w: Seq<char>) -> bool {
    byte_len(w) >= 3 && !short_stop_words().contains(w)
}

/// The lowercased words of a sequence of words.
pub open spec fn lowered(ws: Seq<Seq<char>>) -> Seq<Seq<char>> {
    ws.map_values(|w: Seq<char>| unicode_lowercase(w))
}

/// Keeps the first occurrence of each element, in order.
pub open spec fn dedup_first(s: Seq<Seq<char>>) -> Seq<Seq<char>>
    decreases s.len(),
{
    if s.len() == 0 {
        s
    } else {
        let p = dedup_first(s.drop_last());
        if p.contains(s.last()) {
            p
        } else {
            p.push(s.last())
        }
    }
}

/// The keywords of a context: its lowercased words, kept when `keyword_ok`, each once,
/// in order of first appearance.
pub open spec fn keywords_of(ctx: Seq<char>) -> Seq<Seq<char>> {
    dedup_first(lowered(words(cleaned(ctx))).filter(|w: Seq<char>| keyword_ok(w)))
}

/// The views of a sequence of strings.
pub open spec fn string_views(s: Seq<String>) -> Seq<Seq<char>> {
    s.map_values(|w: String| w@)
}

/// Whether a lowercased word is one of the stop words.
pub fn is_stop_word(word: &str) -> (b: bool)
    ensures
        b == short_stop_words().contains(word@),
{
    let list = short_stop_word_list();
    listed(&list, word)
}

/// Whether `w` is among `v`.
pub fn contains_string(v: &Vec<String>, w: &str) -> (b: bool)
    ensures
        b == string_views(v@).contains(w@),
{
    let mut i: usize = 0;
    while i < v.len()
        invariant
            i <= v.len(),
            forall|j: int| 0 <= j < i ==> #[trigger] v@[j]@ != w@,
        decreases v.len() - i,
    {
        if crate::text::str_eq(v[i].as_str(), w) {
            assert(string_views(v@)[i as int] == w@);
            return true;
        }
        i += 1;
    }
    assert forall|j: int| 0 <= j < string_views(v@).len() implies #[trigger] string_views(v@)[j] != w@ by {
        assert(string_views(v@)[j] == v@[j]@);
    }
    false
}

/// The context with every character that is neither alphanumeric nor whitespace replaced by a space.
pub fn clean_context(ctx: &str) -> (r: String)
    ensures
        r@ == cleaned(ctx@),
{
    let v = crate::text::chars_of(ctx);
    let mut r = String::new();
    let mut i: usize = 0;
    while i < v.len()
        invariant
            i <= v.len(),
            v@ == ctx@,
            r@ == cleaned(v@.take(i as int)),
        decreases v.len() - i,
    {
        let c = v[i];
        if c.is_alphanumeric() || c.is_whitespace() {
            r.push(c);
        } else {
            r.push(' ');
        }
        i += 1;
        assert(r@ =~= cleaned(v@.take(i as int)));
    }
    assert(v@.take(v.len() as int) =~= v@);
    r
}

/// The distinct keywords of a context, in order of first appearance (see `keywords_of`).
pub fn extract_keywords(context: &str) -> (r: Vec<String>)
    ensures
        string_views(r@) == keywords_of(context@),
{
    let clean = clean_context(context);
    let ws = crate::text::split_whitespace_str(clean.as_str());
    let ghost all = lowered(string_views(ws@));
    let mut cands: Vec<String> = Vec::new();
    let mut i: usize = 0;
    while i < ws.len()
        invariant
            i <= ws.len(),
            all == lowered(string_views(ws@)),
            string_views(cands@) == all.take(i as int).filter(|w: Seq<char>| keyword_ok(w)),
        decreases ws.len() - i,
    {
        let lower = ws[i].as_str().to_lowercase();
        proof {
            assert(all.take(i + 1).drop_last() =~= all.take(i as int));
            assert(all.take(i + 1).last() == lower@);
            reveal_with_fuel(Seq::<_>::filter, 1);
        }
        if lower.as_str().len() >= 3 && !is_stop_word(lower.as_str()) {
            cands.push(lower);
            assert(string_views(cands@) =~= all.take(i + 1).filter(|w: Seq<char>| keyword_ok(w)));
        } else {
            assert(string_views(cands@) =~= all.take(i + 1).filter(|w: Seq<char>| keyword_ok(w)));
        }
        i += 1;
    }
    proof {
        assert(all.take(ws.len() as int) =~= all);
    }
    let ghost filtered = string_views(cands@);
    let mut out: Vec<String> = Vec::new();
    let mut j: usize = 0;
    while j < cands.len()
        invariant
            j <= cands.len(),
            filtered == string_views(cands@),
            string_views(out@) == dedup_first(filtered.take(j as int)),
        decreases cands.len() - j,
    {
        proof {
            assert(filtered.take(j + 1).drop_last() =~= filtered.take(j as int));
            assert(filtered.take(j + 1).last() == cands@[j as int]@);
        }
        if !contains_string(&out, cands[j].as_str()) {
            let w = cands[j].clone();
            out.push(w);
            assert(string_views(out@) =~= dedup_first(filtered.take(j + 1)));
        }
        j += 1;
    }
    proof {
        assert(filtered.take(cands.len() as int) =~= filtered);
    }
    out
}


pub(crate) proof fn lemma_dedup_first(s: Seq<Seq<char>>)
    ensures
        forall|i: int, j: int| 0 <= i < j < dedup_first(s).len() ==> dedup_first(s)[i] != dedup_first(s)[j],
        forall|i: int| 0 <= i < dedup_first(s).len() ==> s.contains(#[trigger] dedup_first(s)[i]),
    decreases s.len(),
{
    if s.len() > 0 {
        let p = dedup_first(s.drop_last());
        lemma_dedup_first(s.drop_last());
        assert forall|i: int| 0 <= i < dedup_first(s).len() implies s.contains(#[trigger] dedup_first(s)[i]) by {
            if i < p.len() {
                let w = choose|w: int| 0 <= w < s.drop_last().len() && s.drop_last()[w] == p[i];
                assert(s[w] == p[i]);
            } else {
                assert(s[s.len() - 1] == s.last());
            }
        }
        if !p.contains(s.last()) {
            assert forall|i: int, j: int| 0 <= i < j < dedup_first(s).len() implies dedup_first(s)[i] != dedup_first(s)[j] by {
                if j == p.len() {
                    assert(dedup_first(s)[i] == p[i]);
                }
            }
        }
    }
}

/// Keeping first occurrences keeps every element.
pub(crate) proof fn lemma_dedup_contains(s: Seq<Seq<char>>, x: Seq<char>)
    ensures
        dedup_first(s).contains(x) <==> s.contains(x),
    decreases s.len(),
{
    lemma_dedup_first(s);
    if s.len() > 0 {
        lemma_dedup_contains(s.drop_last(), x);
        let p = dedup_first(s.drop_last());
        if s.drop_last().contains(x) {
            let i = choose|i: int| 0 <= i < p.len() && p[i] == x;
            assert(dedup_first(s)[i] == x);
        }
        if s.contains(x) && !s.drop_last().contains(x) {
            assert(s.last() == x) by {
                let i = choose|i: int| 0 <= i < s.len() && s[i] == x;
                if i < s.len() - 1 {
                    assert(s.drop_last()[i] == x);
                }
            }
            if !p.contains(s.last()) {
                assert(dedup_first(s)[p.len() as int] == x);
            }
        }
        if dedup_first(s).contains(x) {
            let i = choose|i: int| 0 <= i < dedup_first(s).len() && dedup_first(s)[i] == x;
            assert(s.contains(dedup_first(s)[i]));
        }
    }
}

/// The keywords of a context are distinct, each has at least three bytes, and none is a
/// stop word.
pub proof fn law_keywords_distinct_and_meaningful(ctx: Seq<char>)
    ensures
        forall|i: int, j: int| 0 <= i < j < keywords_of(ctx).len() ==> keywords_of(ctx)[i] != keywords_of(ctx)[j],
        forall|i: int| 0 <= i < keywords_of(ctx).len() ==> keyword_ok(#[trigger] keywords_of(ctx)[i]),
{
    let f = lowered(words(cleaned(ctx))).filter(|w: Seq<char>| keyword_ok(w));
    lemma_dedup_first(f);
    assert forall|i: int| 0 <= i < keywords_of(ctx).len() implies keyword_ok(#[trigger] keywords_of(ctx)[i]) by {
        let x = keywords_of(ctx)[i];
        assert(f.contains(x));
        let w = choose|w: int| 0 <= w < f.len() && f[w] == x;
        lowered(words(cleaned(ctx))).lemma_filter_pred(|w: Seq<char>| keyword_ok(w), w);
    }
}

} // verus!
