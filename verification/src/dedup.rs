//! Merging of near-duplicate facts.
use vstd::prelude::*;

verus! {

/// The UTF-8 length of a string, in bytes, as `str::len` returns it.
pub open spec fn byte_len(s: Seq<char>) -> usize {
    vstd::utf8::encode_utf8(s).len() as usize
}

/// Semantic deduplication helpers.
pub struct SemanticDedup;

/// The fact kept when two facts merge: the longer text in bytes, the first on a tie.
pub open spec fn merged(a: Seq<char>, b: Seq<char>) -> Seq<char> {
    if byte_len(a) >= byte_len(b) {
        a
    } else {
        b
    }
}

impl SemanticDedup {
    /// Merges two facts by keeping the longer (more informative) text.
    pub fn merge_facts(text_a: &str, text_b: &str) -> (r: String)
        ensures
            r@ == merged(text_a@, text_b@),
    {
        if text_a.len() >= text_b.len() {
            text_a.to_owned()
        } else {
            text_b.to_owned()
        }
    }
}

} // verus!
