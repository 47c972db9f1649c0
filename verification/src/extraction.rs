//! Extraction of (subject, relation, object) facts from free text with relation patterns.
use vstd::prelude::*;
use regex::Regex;
use unicode_segmentation::UnicodeSegmentation;
use crate::wordlists::{short_stop_words, short_stop_word_list, common_nouns, common_noun_list, listed};
use crate::fusion::lower;
use crate::recall::string_views;
use crate::text::{owned, str_eq};

verus! {

/// The sentences of a text by the Unicode sentence boundary rules, keeping those with
/// an alphanumeric character (`UnicodeSegmentation::unicode_sentences`).
pub uninterp spec fn unicode_sentences_of(text: Seq<char>) -> Seq<Seq<char>>;

/// `UnicodeSegmentation::unicode_sentences`: the sentences of `text`, in order.  They are
/// non-overlapping pieces of the text with an alphanumeric character each, so there are
/// no more of them than characters, and none is longer than the text.
#[verifier::external_body]
pub(crate) fn unicode_sentences(text: &str) -> (r: Vec<String>)
    ensures
        string_views(r@) == unicode_sentences_of(text@),
        r.len() <= text@.len(),
        forall|i: int| 0 <= i < r.len() ==> #[trigger] r@[i]@.len() <= text@.len(),
{
    text.unicode_sentences().map(|s| s.to_string()).collect()
}

/// For a pattern that `regex` compiles, the first two capture groups of each successive
/// non-overlapping match in `text` (an empty string for a group that did not take part);
/// `None` for a pattern that does not compile.
pub uninterp spec fn regex_capture_pairs(pattern: Seq<char>, text: Seq<char>) -> Option<Seq<(Seq<char>, Seq<char>)>>;

pub open spec fn pair_views(s: Seq<(String, String)>) -> Seq<(Seq<char>, Seq<char>)> {
    s.map_values(|p: (String, String)| (p.0@, p.1@))
}

/// `Regex::new(pattern)` and `Regex::captures_iter` over `text`: groups 1 and 2 of each
/// match, in order; `None` when the pattern does not compile.
#[verifier::external_body]
fn regex_captures(pattern: &str, text: &str) -> (r: Option<Vec<(String, String)>>)
    ensures
        match r {
            Some(v) => regex_capture_pairs(pattern@, text@) == Some(pair_views(v@)),
            None => regex_capture_pairs(pattern@, text@) is None,
        },
{
    match Regex::new(pattern) {
        Ok(re) => Some(re.captures_iter(text).map(|c| (
            c.get(1).map(|m| m.as_str()).unwrap_or("").to_string(),
            c.get(2).map(|m| m.as_str()).unwrap_or("").to_string(),
        )).collect()),
        Err(_) => None,
    }
}

/// A fact: subject, relation type, object.
#[derive(Debug, Clone, PartialEq, Eq)]
pub struct ExtractedFact {
    pub from: String,
    pub relation: String,
    pub to: String,
}

impl ExtractedFact {
    pub open spec fn view(&self) -> (Seq<char>, Seq<char>, Seq<char>) {
        (self.from@, self.relation@, self.to@)
    }
}

/// A word names an entity unless it is empty, a stop word (in any case), or a common noun
/// written in lowercase.
pub open spec fn valid_entity(word: Seq<char>) -> bool {
    let l = lower(word);
    word.len() > 0 && !short_stop_words().contains(l) && !(word == l && common_nouns().contains(l))
}

/// Whether `word` can name an entity (see `valid_entity`).
pub fn is_valid_entity(word: &str) -> (b: bool)
    ensures
        b == valid_entity(word@),
{
    let l = word.to_lowercase();
    let lc = crate::text::chars_of(l.as_str());
    if lc.len() == 0 {
        return false;
    }
    let stops = short_stop_word_list();
    if listed(&stops, l.as_str()) {
        return false;
    }
    let nouns = common_noun_list();
    if str_eq(word, l.as_str()) && listed(&nouns, l.as_str()) {
        return false;
    }
    true
}

/// The relation patterns, each with the relation type it extracts.
pub open spec fn relation_patterns() -> Seq<(Seq<char>, Seq<char>)> {
    seq![
        ("(\\w+)\\s+(?:(?:is|are|was|were|am)\\s+)?(?:uses?|using)\\s+(\\w+)"@, "uses"@),
        ("(\\w+)\\s+(?:depends?\\s+on|requires?)\\s+(\\w+)"@, "depends_on"@),
        ("(\\w+)\\s+(?:prefers?|likes?|favou?rs?)\\s+(\\w+)"@, "prefers"@),
        ("(\\w+)\\s+(?:is\\s+a|is\\s+an|is\\s+the)\\s+(\\w+)"@, "is_a"@),
        ("(\\w+)\\s+(?:(?:is|are|was|were|am)\\s+)?(?:works?|working)\\s+(?:on|with|at)\\s+(\\w+)"@, "works_with"@),
        ("(\\w+)\\s+(?:created?|built?|wrote?)\\s+(\\w+)"@, "created"@),
    ]
}

/// Extracts facts with relation patterns.
pub struct FactExtractor {
    relation_patterns: Vec<(String, String)>,
}

/// The facts a pattern gives in one sentence: each match whose two captures both name
/// entities.
pub open spec fn pattern_facts(pattern: (Seq<char>, Seq<char>), sentence: Seq<char>) -> Seq<(Seq<char>, Seq<char>, Seq<char>)> {
    match regex_capture_pairs(pattern.0, sentence) {
        Some(caps) => caps.filter(|c: (Seq<char>, Seq<char>)| valid_entity(c.0) && valid_entity(c.1))
            .map_values(|c: (Seq<char>, Seq<char>)| (c.0, pattern.1, c.1)),
        None => Seq::empty(),
    }
}

/// The facts of one sentence: pattern by pattern.
pub open spec fn sentence_facts(patterns: Seq<(Seq<char>, Seq<char>)>, sentence: Seq<char>) -> Seq<(Seq<char>, Seq<char>, Seq<char>)>
    decreases patterns.len(),
{
    if patterns.len() == 0 {
        Seq::empty()
    } else {
        sentence_facts(patterns.drop_last(), sentence) + pattern_facts(patterns.last(), sentence)
    }
}

/// The facts of a text: sentence by sentence.
pub open spec fn text_facts(patterns: Seq<(Seq<char>, Seq<char>)>, sentences: Seq<Seq<char>>) -> Seq<(Seq<char>, Seq<char>, Seq<char>)>
    decreases sentences.len(),
{
    if sentences.len() == 0 {
        Seq::empty()
    } else {
        text_facts(patterns, sentences.drop_last()) + sentence_facts(patterns, sentences.last())
    }
}

impl FactExtractor {
    pub closed spec fn patterns(&self) -> Seq<(Seq<char>, Seq<char>)> {
        pair_views(self.relation_patterns@)
    }

    /// The extractor with the standard relation patterns (see `relation_patterns`).
    pub fn new() -> (r: Self)
        ensures
            r.patterns() == relation_patterns(),
    {
        let pats = vec![
            (owned("(\\w+)\\s+(?:(?:is|are|was|were|am)\\s+)?(?:uses?|using)\\s+(\\w+)"), owned("uses")),
            (owned("(\\w+)\\s+(?:depends?\\s+on|requires?)\\s+(\\w+)"), owned("depends_on")),
            (owned("(\\w+)\\s+(?:prefers?|likes?|favou?rs?)\\s+(\\w+)"), owned("prefers")),
            (owned("(\\w+)\\s+(?:is\\s+a|is\\s+an|is\\s+the)\\s+(\\w+)"), owned("is_a")),
            (owned("(\\w+)\\s+(?:(?:is|are|was|were|am)\\s+)?(?:works?|working)\\s+(?:on|with|at)\\s+(\\w+)"), owned("works_with")),
            (owned("(\\w+)\\s+(?:created?|built?|wrote?)\\s+(\\w+)"), owned("created")),
        ];
        let r = FactExtractor { relation_patterns: pats };
        assert(r.patterns() =~= relation_patterns());
        r
    }

    /// The facts that one pattern's matches give: each (subject, object) capture pair
    /// whose two words name entities, with relation type `relation`, in order.
    pub fn facts_from_captures(caps: &Vec<(String, String)>, relation: &str) -> (r: Vec<ExtractedFact>)
        ensures
            r@.map_values(|f: ExtractedFact| f.view()) == pair_views(caps@)
                .filter(|c: (Seq<char>, Seq<char>)| valid_entity(c.0) && valid_entity(c.1))
                .map_values(|c: (Seq<char>, Seq<char>)| (c.0, relation@, c.1)),
    {
        let ghost cv = pair_views(caps@);
        let ghost keep = |c: (Seq<char>, Seq<char>)| valid_entity(c.0) && valid_entity(c.1);
        let ghost mk = |c: (Seq<char>, Seq<char>)| (c.0, relation@, c.1);
        let mut out: Vec<ExtractedFact> = Vec::new();
        let mut i: usize = 0;
        assert(out@.map_values(|f: ExtractedFact| f.view()) =~= cv.take(0).filter(keep).map_values(mk));
        while i < caps.len()
            invariant
                i <= caps.len(),
                cv == pair_views(caps@),
                keep == (|c: (Seq<char>, Seq<char>)| valid_entity(c.0) && valid_entity(c.1)),
                mk == (|c: (Seq<char>, Seq<char>)| (c.0, relation@, c.1)),
                out@.map_values(|f: ExtractedFact| f.view()) == cv.take(i as int).filter(keep).map_values(mk),
            decreases caps.len() - i,
        {
            let c = &caps[i];
            proof {
                assert(cv.take(i + 1) =~= cv.take(i as int).push((c.0@, c.1@)));
                crate::graph::lemma_filter_map_push(cv.take(i as int), (c.0@, c.1@), keep, mk);
            }
            let ghost before = out@;
            if is_valid_entity(c.0.as_str()) && is_valid_entity(c.1.as_str()) {
                out.push(ExtractedFact { from: c.0.clone(), relation: owned(relation), to: c.1.clone() });
                assert(out@.map_values(|f: ExtractedFact| f.view())
                    =~= before.map_values(|f: ExtractedFact| f.view()).push((c.0@, relation@, c.1@)));
            }
            i += 1;
        }
        assert(cv.take(caps.len() as int) =~= cv);
        out
    }

    fn pattern_facts_exec(&self, k: usize, sentence: &String, out: &mut Vec<ExtractedFact>)
        requires
            k < self.relation_patterns.len(),
        ensures
            final(out)@.map_values(|f: ExtractedFact| f.view()) == old(out)@.map_values(|f: ExtractedFact| f.view())
                + pattern_facts(self.patterns()[k as int], sentence@),
    {
        let p = &self.relation_patterns[k];
        assert(self.patterns()[k as int] == (p.0@, p.1@));
        let ghost o0 = out@.map_values(|f: ExtractedFact| f.view());
        match regex_captures(p.0.as_str(), sentence.as_str()) {
            Some(caps) => {
                let mut found = Self::facts_from_captures(&caps, p.1.as_str());
                let ghost fv = found@.map_values(|f: ExtractedFact| f.view());
                out.append(&mut found);
                assert(out@.map_values(|f: ExtractedFact| f.view()) =~= o0 + fv);
            },
            None => {
                assert(out@.map_values(|f: ExtractedFact| f.view()) =~= o0 + Seq::<(Seq<char>, Seq<char>, Seq<char>)>::empty());
            },
        }
    }

    /// The facts of `text`: for each sentence in order, for each pattern in order, each match
    /// whose subject and object both name entities (see `valid_entity`).
    pub fn extract(&self, text: &str) -> (r: Vec<ExtractedFact>)
        ensures
            r@.map_values(|f: ExtractedFact| f.view()) == text_facts(self.patterns(), unicode_sentences_of(text@)),
    {
        let sentences = unicode_sentences(text);
        self.extract_sentences(&sentences)
    }

    /// The facts of the given sentences, in order (see `extract`).
    pub fn extract_sentences(&self, sentences: &Vec<String>) -> (r: Vec<ExtractedFact>)
        ensures
            r@.map_values(|f: ExtractedFact| f.view()) == text_facts(self.patterns(), string_views(sentences@)),
    {
        let ghost ss = string_views(sentences@);
        let ghost ps = self.patterns();
        let mut out: Vec<ExtractedFact> = Vec::new();
        let mut i: usize = 0;
        assert(out@.map_values(|f: ExtractedFact| f.view()) =~= text_facts(ps, ss.take(0)));
        while i < sentences.len()
            invariant
                i <= sentences.len(),
                ss == string_views(sentences@),
                ps == self.patterns(),
                ps.len() == self.relation_patterns.len(),
                out@.map_values(|f: ExtractedFact| f.view()) == text_facts(ps, ss.take(i as int)),
            decreases sentences.len() - i,
        {
            let s = &sentences[i];
            proof {
                assert(ss.take(i + 1).drop_last() =~= ss.take(i as int));
                assert(ss.take(i + 1).last() == s@);
            }
            let ghost o1 = out@.map_values(|f: ExtractedFact| f.view());
            let mut k: usize = 0;
            assert(sentence_facts(ps.take(0), s@) =~= Seq::<(Seq<char>, Seq<char>, Seq<char>)>::empty());
            assert(o1 =~= o1 + sentence_facts(ps.take(0), s@));
            while k < self.relation_patterns.len()
                invariant
                    k <= self.relation_patterns.len(),
                    ps == self.patterns(),
                    ps.len() == self.relation_patterns.len(),
                    out@.map_values(|f: ExtractedFact| f.view()) == o1 + sentence_facts(ps.take(k as int), s@),
                decreases self.relation_patterns.len() - k,
            {
                proof {
                    assert(ps.take(k + 1).drop_last() =~= ps.take(k as int));
                    assert(ps.take(k + 1).last() == ps[k as int]);
                }
                self.pattern_facts_exec(k, s, &mut out);
                proof {
                    assert(o1 + sentence_facts(ps.take(k + 1), s@) =~= o1 + sentence_facts(ps.take(k as int), s@) + pattern_facts(ps[k as int], s@));
                }
                k += 1;
            }
            assert(ps.take(self.relation_patterns.len() as int) =~= ps);
            i += 1;
        }
        assert(ss.take(sentences.len() as int) =~= ss);
        out
    }
}

impl Default for FactExtractor {
    fn default() -> (r: Self)
        ensures
            r.patterns() == relation_patterns(),
    {
        Self::new()
    }
}

} // verus!
