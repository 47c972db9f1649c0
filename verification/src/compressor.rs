//! Context compression: the integer side of TF-IDF sentence scoring (sentences, stemmed
//! term counts, document frequencies, word counts) and the reconstruction of the kept
//! sentences in document order.
use vstd::prelude::*;
use rust_stemmers::{Algorithm, Stemmer};
use unicode_segmentation::UnicodeSegmentation;
use crate::wordlists::{long_stop_words, long_stop_word_list, listed};
use crate::extraction::{unicode_sentences, unicode_sentences_of};
use crate::fusion::{lower, join, join_strings, first_index, lemma_first_index};
use crate::recall::string_views;
use crate::text::{unicode_alphanumeric, trim, trim_str, chars_of, string_of};

verus! {

/// The Snowball English (Porter 2) stem of a word (`rust_stemmers`).
pub uninterp spec fn english_stem(word: Seq<char>) -> Seq<char>;

/// `Stemmer::create(Algorithm::English).stem(word)`.
#[verifier::external_body]
fn stem_english(word: &str) -> (r: String)
    ensures
        r@ == english_stem(word@),
{
    Stemmer::create(Algorithm::English).stem(word).to_string()
}

/// The words of a text by the Unicode word boundary rules, keeping those with an
/// alphanumeric character (`UnicodeSegmentation::unicode_words`).
pub uninterp spec fn unicode_words_of(text: Seq<char>) -> Seq<Seq<char>>;

/// `UnicodeSegmentation::unicode_words`: the words of `text`, in order.  They are
/// non-overlapping pieces of the text with an alphanumeric character each, so there are
/// no more of them than characters.
#[verifier::external_body]
fn unicode_words(text: &str) -> (r: Vec<String>)
    ensures
        string_views(r@) == unicode_words_of(text@),
        r.len() <= text@.len(),
{
    text.unicode_words().map(|w| w.to_string()).collect()
}

/// The alphanumeric characters of a word, lowercased.
pub open spec fn cleaned_word(w: Seq<char>) -> Seq<char> {
    lower(w.filter(|c: char| unicode_alphanumeric(c)))
}

/// The term a word contributes: its cleaned form stemmed, unless it is empty or a stop
/// word.
pub open spec fn word_term(w: Seq<char>) -> Option<Seq<char>> {
    let c = cleaned_word(w);
    if c.len() == 0 || long_stop_words().contains(c) { None } else { Some(english_stem(c)) }
}

pub type Counts = Seq<(Seq<char>, int)>;

pub open spec fn same_term(t: Seq<char>) -> spec_fn((Seq<char>, int)) -> bool {
    |e: (Seq<char>, int)| e.0 == t
}

/// One more occurrence of `t`: its count raised, or a new entry with count one.
pub open spec fn count_one(m: Counts, t: Seq<char>) -> Counts {
    let i = first_index(m, same_term(t));
    if i < 0 { m.push((t, 1)) } else { m.update(i, (t, m[i].1 + 1)) }
}

/// The term counts of a sentence's words, in order of first appearance.
pub open spec fn term_counts(ws: Seq<Seq<char>>) -> Counts
    decreases ws.len(),
{
    if ws.len() == 0 {
        Seq::empty()
    } else {
        let m = term_counts(ws.drop_last());
        match word_term(ws.last()) {
            Some(t) => count_one(m, t),
            None => m,
        }
    }
}

/// Adding one to the document frequency of each term of a sentence.
pub open spec fn add_terms(df: Counts, terms: Counts) -> Counts
    decreases terms.len(),
{
    if terms.len() == 0 {
        df
    } else {
        count_one(add_terms(df, terms.drop_last()), terms.last().0)
    }
}

/// The document frequencies over the sentences' term counts.
pub open spec fn doc_freqs(ts: Seq<Counts>) -> Counts
    decreases ts.len(),
{
    if ts.len() == 0 {
        Seq::empty()
    } else {
        add_terms(doc_freqs(ts.drop_last()), ts.last())
    }
}

pub open spec fn not_blank() -> spec_fn(Seq<char>) -> bool {
    |s: Seq<char>| trim(s).len() > 0
}

/// The sentences scored: the text's sentences that are not blank.
pub open spec fn scored_sentences(text: Seq<char>) -> Seq<Seq<char>> {
    unicode_sentences_of(text).filter(not_blank())
}

/// What TF-IDF scoring reads of a text: its sentences, each sentence's term counts and
/// word count, and the document frequency of each term.
#[derive(Debug, Clone)]
pub struct SentenceStats {
    pub sentences: Vec<String>,
    pub terms: Vec<Vec<(String, u64)>>,
    pub document_frequencies: Vec<(String, u64)>,
    pub word_counts: Vec<u64>,
}

pub open spec fn count_views(v: Seq<(String, u64)>) -> Counts {
    v.map_values(|e: (String, u64)| (e.0@, e.1 as int))
}

pub open spec fn counts_views(v: Seq<Vec<(String, u64)>>) -> Seq<Counts> {
    v.map_values(|c: Vec<(String, u64)>| count_views(c@))
}

/// A compressor of context text.
pub struct ContextCompressor;

fn count_one_exec(m: &mut Vec<(String, u64)>, t: &String)
    requires
        forall|k: int| 0 <= k < old(m).len() ==> #[trigger] old(m)@[k].1 < u64::MAX,
        old(m).len() < u64::MAX,
    ensures
        count_views(final(m)@) == count_one(count_views(old(m)@), t@),
        final(m).len() <= old(m).len() + 1,
        forall|k: int| 0 <= k < final(m).len() ==> #[trigger] final(m)@[k].1 <= 1 + (if k < old(m).len() { old(m)@[k].1 as int } else { 0 }),
{
    let ghost p = count_views(m@);
    let mut j: usize = 0;
    let mut found = false;
    while !found && j < m.len()
        invariant
            j <= m.len(),
            p == count_views(m@),
            forall|k: int| 0 <= k < j ==> !same_term(t@)(#[trigger] p[k]),
            found ==> j < m.len() && same_term(t@)(p[j as int]),
        decreases m.len() - j + (if found { 0int } else { 1int }),
    {
        assert(p[j as int] == (m@[j as int].0@, m@[j as int].1 as int));
        if crate::text::str_eq(m[j].0.as_str(), t.as_str()) {
            found = true;
        } else {
            j += 1;
        }
    }
    proof {
        lemma_first_index(p, same_term(t@), j as int);
    }
    if found {
        let c = m[j].1;
        assert(c < u64::MAX);
        m.set(j, (t.clone(), c + 1));
        assert(count_views(m@) =~= p.update(j as int, (t@, p[j as int].1 + 1)));
    } else {
        m.push((t.clone(), 1));
        assert(count_views(m@) =~= p.push((t@, 1)));
    }
}

impl ContextCompressor {
    pub fn new() -> (r: Self) {
        ContextCompressor
    }

    /// Whether a lowercased word is one of the compressor's stop words.
    pub fn is_stop_word(&self, word: &str) -> (b: bool)
        ensures
            b == long_stop_words().contains(word@),
    {
        let list = long_stop_word_list();
        listed(&list, word)
    }

    /// The term of a word (see `word_term`).
    pub fn stem_word(&self, word: &str) -> (r: Option<String>)
        ensures
            match r {
                Some(s) => word_term(word@) == Some(s@),
                None => word_term(word@) is None,
            },
    {
        let v = chars_of(word);
        let mut kept: Vec<char> = Vec::new();
        let mut i: usize = 0;
        while i < v.len()
            invariant
                i <= v.len(),
                v@ == word@,
                kept@ == v@.take(i as int).filter(|c: char| unicode_alphanumeric(c)),
            decreases v.len() - i,
        {
            proof {
                assert(v@.take(i + 1) =~= v@.take(i as int).push(v@[i as int]));
                crate::graph::lemma_filter_push(v@.take(i as int), v@[i as int], |c: char| unicode_alphanumeric(c));
            }
            if v[i].is_alphanumeric() {
                kept.push(v[i]);
            }
            i += 1;
        }
        assert(v@.take(v.len() as int) =~= v@);
        let s = string_of(&kept);
        let clean = s.to_lowercase();
        let cc = chars_of(clean.as_str());
        if cc.len() == 0 || self.is_stop_word(clean.as_str()) {
            None
        } else {
            Some(stem_english(clean.as_str()))
        }
    }

    fn term_counts_exec(&self, ws: &Vec<String>) -> (r: Vec<(String, u64)>)
        ensures
            count_views(r@) == term_counts(string_views(ws@)),
            r.len() <= ws.len(),
            forall|k: int| 0 <= k < r.len() ==> #[trigger] r@[k].1 <= ws.len(),
    {
        let ghost wv = string_views(ws@);
        let mut m: Vec<(String, u64)> = Vec::new();
        let mut i: usize = 0;
        assert(count_views(m@) =~= term_counts(wv.take(0)));
        while i < ws.len()
            invariant
                i <= ws.len(),
                wv == string_views(ws@),
                count_views(m@) == term_counts(wv.take(i as int)),
                m.len() <= i,
                forall|k: int| 0 <= k < m.len() ==> #[trigger] m@[k].1 <= i,
            decreases ws.len() - i,
        {
            proof {
                assert(wv.take(i + 1).drop_last() =~= wv.take(i as int));
                assert(wv.take(i + 1).last() == ws@[i as int]@);
            }
            match self.stem_word(ws[i].as_str()) {
                Some(t) => {
                    let ghost m0 = m@;
                    count_one_exec(&mut m, &t);
                    assert forall|k: int| 0 <= k < m.len() implies #[trigger] m@[k].1 <= i + 1 by {
                        if k < m0.len() {
                            assert(m0[k].1 <= i);
                        }
                    }
                },
                None => {},
            }
            i += 1;
        }
        assert(wv.take(ws.len() as int) =~= wv);
        m
    }
}


fn add_terms_exec(df: &mut Vec<(String, u64)>, terms: &Vec<(String, u64)>, Ghost(bound): Ghost<int>)
    requires
        forall|k: int| 0 <= k < old(df).len() ==> #[trigger] old(df)@[k].1 <= bound,
        old(df).len() <= bound,
        bound + terms.len() < u64::MAX,
    ensures
        count_views(final(df)@) == add_terms(count_views(old(df)@), count_views(terms@)),
        final(df).len() <= old(df).len() + terms.len(),
        forall|k: int| 0 <= k < final(df).len() ==> #[trigger] final(df)@[k].1 <= bound + terms.len(),
{
    let ghost d0 = count_views(df@);
    let ghost tv = count_views(terms@);
    let ghost l0 = df.len();
    let mut i: usize = 0;
    assert(tv.take(0) =~= Seq::<(Seq<char>, int)>::empty());
    while i < terms.len()
        invariant
            i <= terms.len(),
            d0 == count_views(old(df)@),
            l0 == old(df).len(),
            tv == count_views(terms@),
            count_views(df@) == add_terms(d0, tv.take(i as int)),
            df.len() <= l0 + i,
            l0 <= bound,
            bound + terms.len() < u64::MAX,
            forall|k: int| 0 <= k < df.len() ==> #[trigger] df@[k].1 <= bound + i,
        decreases terms.len() - i,
    {
        proof {
            assert(tv.take(i + 1).drop_last() =~= tv.take(i as int));
            assert(tv.take(i + 1).last() == (terms@[i as int].0@, terms@[i as int].1 as int));
        }
        let ghost m0 = df@;
        assert forall|k: int| 0 <= k < df.len() implies #[trigger] df@[k].1 < u64::MAX by {
            assert(df@[k].1 <= bound + i);
        }
        count_one_exec(df, &terms[i].0);
        assert forall|k: int| 0 <= k < df.len() implies #[trigger] df@[k].1 <= bound + i + 1 by {
            if k < m0.len() {
                assert(m0[k].1 <= bound + i);
            }
        }
        i += 1;
    }
    assert(tv.take(terms.len() as int) =~= tv);
}

impl ContextCompressor {
    /// What TF-IDF scoring reads of `text`: its non-blank sentences in order, for each
    /// the term counts of its words (in order of first appearance) and its word count,
    /// and for each term the number of sentences it occurs in (in order of first
    /// appearance).
    pub fn sentence_stats(&self, text: &str) -> (r: SentenceStats)
        requires
            text@.len() < u32::MAX,
        ensures
            string_views(r.sentences@) == scored_sentences(text@),
            r.terms.len() == r.sentences.len(),
            r.word_counts.len() == r.sentences.len(),
            forall|i: int| 0 <= i < r.sentences.len() ==> count_views(#[trigger] r.terms@[i]@) == term_counts(unicode_words_of(r.sentences@[i]@)),
            forall|i: int| 0 <= i < r.sentences.len() ==> #[trigger] r.word_counts@[i] == unicode_words_of(r.sentences@[i]@).len(),
            count_views(r.document_frequencies@) == doc_freqs(counts_views(r.terms@)),
    {
        let all = unicode_sentences(text);
        let ghost av = string_views(all@);
        let mut sentences: Vec<String> = Vec::new();
        let mut i: usize = 0;
        while i < all.len()
            invariant
                i <= all.len(),
                av == string_views(all@),
                string_views(sentences@) == av.take(i as int).filter(not_blank()),
                all.len() <= text@.len(),
                forall|j: int| 0 <= j < all.len() ==> #[trigger] all@[j]@.len() <= text@.len(),
                sentences.len() <= i,
                forall|j: int| 0 <= j < sentences.len() ==> #[trigger] sentences@[j]@.len() <= text@.len(),
            decreases all.len() - i,
        {
            proof {
                assert(av.take(i + 1) =~= av.take(i as int).push(all@[i as int]@));
                crate::graph::lemma_filter_push(av.take(i as int), all@[i as int]@, not_blank());
            }
            let t = trim_str(all[i].as_str());
            let tc = chars_of(t.as_str());
            if tc.len() > 0 {
                let ghost before = string_views(sentences@);
                sentences.push(all[i].clone());
                assert(string_views(sentences@) =~= before.push(all@[i as int]@));
            }
            i += 1;
        }
        assert(av.take(all.len() as int) =~= av);
        let mut terms: Vec<Vec<(String, u64)>> = Vec::new();
        let mut word_counts: Vec<u64> = Vec::new();
        let mut dfs: Vec<(String, u64)> = Vec::new();
        let ghost mut total: int = 0;
        let ghost len = text@.len();
        let mut k: usize = 0;
        assert(counts_views(terms@) =~= Seq::<Counts>::empty());
        while k < sentences.len()
            invariant
                k <= sentences.len(),
                terms.len() == k,
                word_counts.len() == k,
                forall|j: int| 0 <= j < k ==> count_views(#[trigger] terms@[j]@) == term_counts(unicode_words_of(sentences@[j]@)),
                forall|j: int| 0 <= j < k ==> #[trigger] word_counts@[j] == unicode_words_of(sentences@[j]@).len(),
                count_views(dfs@) == doc_freqs(counts_views(terms@)),
                dfs.len() <= total,
                forall|j: int| 0 <= j < dfs.len() ==> #[trigger] dfs@[j].1 <= total,
                len == text@.len(),
                len < u32::MAX,
                sentences.len() <= len,
                forall|j: int| 0 <= j < sentences.len() ==> #[trigger] sentences@[j]@.len() <= len,
                0 <= total <= k * len,
            decreases sentences.len() - k,
        {
            let ws = unicode_words(sentences[k].as_str());
            let tc = self.term_counts_exec(&ws);
            proof {
                assert(sentences@[k as int]@.len() <= len);
                assert(tc.len() <= len);
                assert(k < len);
                assert(total + tc.len() <= (k + 1) * len) by (nonlinear_arith)
                    requires total <= k * len, tc.len() <= len;
                assert((k + 1) * len <= len * len) by (nonlinear_arith)
                    requires k < len;
                assert(len * len < u64::MAX) by (nonlinear_arith)
                    requires 0 <= len < u32::MAX;
            }
            let ghost t0 = terms@;
            proof {
                assert(counts_views(t0.push(tc)) =~= counts_views(t0).push(count_views(tc@)));
                assert(counts_views(t0.push(tc)).drop_last() =~= counts_views(t0));
            }
            add_terms_exec(&mut dfs, &tc, Ghost(total));
            proof {
                total = total + tc.len();
            }
            word_counts.push(ws.len() as u64);
            terms.push(tc);
            k += 1;
        }
        SentenceStats { sentences, terms, document_frequencies: dfs, word_counts }
    }
}


/// The sentence indices kept: the first `keep` of the ranking, in document order.
pub open spec fn kept_indices(n: int, ranking: Seq<int>, keep: int) -> Seq<int> {
    let top = if keep < ranking.len() { ranking.take(keep) } else { ranking };
    Seq::new(n as nat, |i: int| i).filter(|i: int| top.contains(i))
}

/// The compressed text: the kept sentences, trimmed, in document order, joined by spaces.
pub open spec fn reconstructed(sentences: Seq<Seq<char>>, ranking: Seq<int>, keep: int) -> Seq<char> {
    join(kept_indices(sentences.len() as int, ranking, keep).map_values(|i: int| trim(sentences[i])), " "@)
}

impl ContextCompressor {
    /// Keeps the `keep_count` best sentences, where `ranking` lists the sentence indices
    /// best first, and joins them trimmed, in document order, with single spaces.
    pub fn reconstruct(&self, sentences: &Vec<String>, ranking: &Vec<usize>, keep_count: usize) -> (r: String)
        requires
            forall|k: int| 0 <= k < ranking.len() ==> #[trigger] ranking@[k] < sentences.len(),
        ensures
            r@ == reconstructed(string_views(sentences@), ranking@.map_values(|i: usize| i as int), keep_count as int),
    {
        let n = sentences.len();
        let ghost rk = ranking@.map_values(|i: usize| i as int);
        let ghost top = if (keep_count as int) < rk.len() { rk.take(keep_count as int) } else { rk };
        let mut flags: Vec<bool> = Vec::new();
        let mut i: usize = 0;
        while i < n
            invariant
                i <= n,
                flags.len() == i,
                forall|k: int| 0 <= k < i ==> !flags@[k],
            decreases n - i,
        {
            flags.push(false);
            i += 1;
        }
        let limit = if keep_count < ranking.len() { keep_count } else { ranking.len() };
        let mut k: usize = 0;
        while k < limit
            invariant
                k <= limit,
                limit <= ranking.len(),
                limit == (if keep_count < ranking.len() { keep_count } else { ranking.len() }),
                rk == ranking@.map_values(|i: usize| i as int),
                top == (if (keep_count as int) < rk.len() { rk.take(keep_count as int) } else { rk }),
                flags.len() == n,
                n == sentences.len(),
                forall|t: int| 0 <= t < ranking.len() ==> #[trigger] ranking@[t] < sentences.len(),
                forall|j: int| 0 <= j < n ==> (flags@[j] <==> top.take(k as int).contains(j)),
            decreases limit - k,
        {
            let j = ranking[k];
            proof {
                assert(top[k as int] == j as int);
                assert(top.take(k + 1) =~= top.take(k as int).push(j as int));
            }
            let ghost f0 = flags@;
            flags.set(j, true);
            proof {
                let t0 = top.take(k as int);
                assert forall|x: int| 0 <= x < n implies (flags@[x] <==> top.take(k + 1).contains(x)) by {
                    if t0.contains(x) {
                        let w = choose|w: int| 0 <= w < t0.len() && t0[w] == x;
                        assert(top.take(k + 1)[w] == x);
                    }
                    let t1 = top.take(k + 1);
                    if t1.contains(x) {
                        let w = choose|w: int| 0 <= w < t1.len() && t1[w] == x;
                        if w < k {
                            assert(t0[w] == x);
                        }
                    }
                    if x == j as int {
                        assert(top.take(k + 1)[k as int] == x);
                    }
                }
            }
            k += 1;
        }
        assert(top.take(limit as int) =~= top);
        let ghost kept = kept_indices(n as int, rk, keep_count as int);
        let ghost idx = Seq::new(n as nat, |i: int| i);
        let mut parts: Vec<String> = Vec::new();
        let mut m: usize = 0;
        while m < n
            invariant
                m <= n,
                n == sentences.len(),
                flags.len() == n,
                idx == Seq::new(n as nat, |i: int| i),
                forall|j: int| 0 <= j < n ==> (flags@[j] <==> top.contains(j)),
                string_views(parts@) == idx.take(m as int).filter(|i: int| top.contains(i)).map_values(|i: int| trim(string_views(sentences@)[i])),
            decreases n - m,
        {
            proof {
                assert(idx.take(m + 1) =~= idx.take(m as int).push(m as int));
                crate::graph::lemma_filter_map_push(idx.take(m as int), m as int, |i: int| top.contains(i), |i: int| trim(string_views(sentences@)[i]));
            }
            if flags[m] {
                let ghost before = string_views(parts@);
                parts.push(trim_str(sentences[m].as_str()));
                assert(string_views(parts@) =~= before.push(trim(string_views(sentences@)[m as int])));
            }
            m += 1;
        }
        assert(idx.take(n as int) =~= idx);
        join_strings(&parts, " ")
    }
}

/// Filtering the positions `0 .. n` keeps them increasing, keeps exactly those that pass.
proof fn lemma_filter_positions(n: nat, p: spec_fn(int) -> bool)
    ensures
        ({
            let f = Seq::new(n, |i: int| i).filter(p);
            &&& forall|a: int, b: int| 0 <= a < b < f.len() ==> f[a] < f[b]
            &&& forall|k: int| 0 <= k < f.len() ==> 0 <= #[trigger] f[k] < n && p(f[k])
            &&& forall|i: int| 0 <= i < n && p(i) ==> #[trigger] f.contains(i)
        }),
    decreases n,
{
    reveal(Seq::filter);
    if n > 0 {
        let m = (n - 1) as nat;
        lemma_filter_positions(m, p);
        let all = Seq::new(n, |i: int| i);
        assert(all.drop_last() =~= Seq::new(m, |i: int| i));
        let g = Seq::new(m, |i: int| i).filter(p);
        let f = all.filter(p);
        assert(f == if p(all.last()) { g.push(all.last()) } else { g });
        assert(all.last() == m as int);
        assert forall|a: int, b: int| 0 <= a < b < f.len() implies f[a] < f[b] by {
            if b == g.len() {
                assert(f[a] == g[a]);
            }
        }
        assert forall|k: int| 0 <= k < f.len() implies 0 <= #[trigger] f[k] < n && p(f[k]) by {
            if k < g.len() {
                assert(f[k] == g[k]);
            }
        }
        assert forall|i: int| 0 <= i < n && p(i) implies #[trigger] f.contains(i) by {
            if i < m {
                assert(g.contains(i));
                let k = choose|k: int| 0 <= k < g.len() && g[k] == i;
                assert(f[k] == i);
            } else {
                assert(f[g.len() as int] == i);
            }
        }
    }
}

/// Compression keeps the `keep` best-ranked sentences in document order: a sentence is
/// kept exactly when its position is among the first `keep` of the ranking, the kept
/// positions increase, and keeping none, or having no sentence, gives the empty text.
pub proof fn law_reconstruct_keeps_best(sentences: Seq<Seq<char>>, ranking: Seq<int>, keep: int)
    requires
        0 <= keep,
        forall|k: int| 0 <= k < ranking.len() ==> 0 <= #[trigger] ranking[k] < sentences.len(),
    ensures
        ({
            let kept = kept_indices(sentences.len() as int, ranking, keep);
            &&& reconstructed(sentences, ranking, keep) == join(kept.map_values(|i: int| trim(sentences[i])), " "@)
            &&& forall|a: int, b: int| 0 <= a < b < kept.len() ==> kept[a] < kept[b]
            &&& forall|i: int| #[trigger] kept.contains(i) <==>
                (exists|j: int| 0 <= j < ranking.len() && j < keep && ranking[j] == i)
            &&& (keep == 0 || sentences.len() == 0) ==> reconstructed(sentences, ranking, keep) == Seq::<char>::empty()
        }),
{
    let n = sentences.len();
    let top = if keep < ranking.len() { ranking.take(keep) } else { ranking };
    let p = |i: int| top.contains(i);
    lemma_filter_positions(n, p);
    let kept = kept_indices(n as int, ranking, keep);
    assert(kept == Seq::new(n, |i: int| i).filter(p));
    assert forall|i: int| #[trigger] kept.contains(i) <==>
        (exists|j: int| 0 <= j < ranking.len() && j < keep && ranking[j] == i) by {
        if kept.contains(i) {
            let k = choose|k: int| 0 <= k < kept.len() && kept[k] == i;
            assert(p(kept[k]));
            assert(top.contains(i));
            let j = choose|j: int| 0 <= j < top.len() && top[j] == i;
            assert(j < ranking.len() && j < keep && top[j] == ranking[j]);
        }
        if exists|j: int| 0 <= j < ranking.len() && j < keep && ranking[j] == i {
            let j = choose|j: int| 0 <= j < ranking.len() && j < keep && ranking[j] == i;
            assert(top[j] == i);
            assert(p(i));
        }
    }
    if keep == 0 || n == 0 {
        if n == 0 && ranking.len() > 0 {
            assert(0 <= ranking[0] < n);
        }
        assert(top.len() == 0);
        if kept.len() > 0 {
            assert(p(kept[0]));
            let j = choose|j: int| 0 <= j < top.len() && top[j] == kept[0];
        }
        assert(kept.map_values(|i: int| trim(sentences[i])) =~= Seq::<Seq<char>>::empty());
    }
}

} // verus!
