//! Character and string primitives shared by the text-processing modules.
//!
//! Strings are specified by their views, sequences of `char`.  Unicode
//! classification and case mapping come from `std`; everything built on top
//! of them (trimming, word splitting, substring search) is verified here.
use vstd::prelude::*;

verus! {

/// Whether `c` has the Unicode `Alphabetic` or `Numeric` property.
pub uninterp spec fn unicode_alphanumeric(c: char) -> bool;

/// Whether `c` has the Unicode `White_Space` property (PropList.txt): tab, line feed,
/// vertical tab, form feed, carriage return, space, next line, no-break space, Ogham
/// space mark, the spaces U+2000 to U+200A, line and paragraph separators, narrow
/// no-break space, medium mathematical space and ideographic space.
pub open spec fn unicode_whitespace(c: char) -> bool {
    let u = c as u32;
    (0x9 <= u <= 0xD) || u == 0x20 || u == 0x85 || u == 0xA0 || u == 0x1680
        || (0x2000 <= u <= 0x200A) || u == 0x2028 || u == 0x2029 || u == 0x202F || u == 0x205F || u == 0x3000
}

/// The full Unicode lowercase mapping of a string (`str::to_lowercase`).
pub uninterp spec fn unicode_lowercase(s: Seq<char>) -> Seq<char>;

/// `char::is_alphanumeric` answers the Unicode `Alphabetic || Numeric` property of `c`.
pub assume_specification[ char::is_alphanumeric ](c: char) -> (b: bool)
    ensures
        b == unicode_alphanumeric(c),
;

/// `char::is_whitespace` answers the Unicode `White_Space` property of `c`.
pub assume_specification[ char::is_whitespace ](c: char) -> (b: bool)
    ensures
        b == unicode_whitespace(c),
;

/// `str::to_lowercase` returns the Unicode lowercase mapping of the whole string; each
/// character maps to one or more characters, so the result is empty exactly when the
/// input is.
pub assume_specification[ str::to_lowercase ](s: &str) -> (res: String)
    ensures
        res@ == unicode_lowercase(s@),
        res@.len() == 0 <==> s@.len() == 0,
;

/// `String::push` appends one character.
pub assume_specification[ String::push ](s: &mut String, ch: char)
    ensures
        final(s)@ == old(s)@.push(ch),
;

/// The characters of a string, in order.
pub fn chars_of(s: &str) -> (v: Vec<char>)
    ensures
        v@ == s@,
{
    let mut v: Vec<char> = Vec::new();
    for c in it: s.chars()
        invariant
            v@ == it.seq().take(it.index() as int),
    {
        v.push(c);
    }
    v
}

/// The string made of the given characters.
pub fn string_of(v: &Vec<char>) -> (s: String)
    ensures
        s@ == v@,
{
    let mut s = String::new();
    let mut i: usize = 0;
    while i < v.len()
        invariant
            i <= v.len(),
            s@ == v@.take(i as int),
        decreases v.len() - i,
    {
        s.push(v[i]);
        i += 1;
        assert(s@ =~= v@.take(i as int));
    }
    assert(v@.take(v.len() as int) =~= v@);
    s
}

/// A copy of a string slice as an owned `String`.
pub fn owned(s: &str) -> (r: String)
    ensures
        r@ == s@,
{
    s.to_owned()
}

/// `sub` occurs in `s` starting at position `i`.
pub open spec fn occurs_at(s: Seq<char>, sub: Seq<char>, i: int) -> bool {
    0 <= i && i + sub.len() <= s.len() && s.subrange(i, i + sub.len()) == sub
}

/// `sub` occurs somewhere in `s` (the empty sequence occurs in every sequence).
pub open spec fn contains_seq(s: Seq<char>, sub: Seq<char>) -> bool {
    exists|i: int| occurs_at(s, sub, i)
}

/// Whether `sub` occurs in `s` at position `i` (exec).
fn matches_at(s: &Vec<char>, sub: &Vec<char>, i: usize) -> (b: bool)
    requires
        i + sub.len() <= s.len(),
    ensures
        b == occurs_at(s@, sub@, i as int),
{
    let mut j: usize = 0;
    while j < sub.len()
        invariant
            j <= sub.len(),
            i + sub.len() <= s.len(),
            forall|k: int| 0 <= k < j ==> s@[i + k] == sub@[k],
        decreases sub.len() - j,
    {
        if s[i + j] != sub[j] {
            assert(s@.subrange(i as int, i + sub.len())[j as int] != sub@[j as int]);
            return false;
        }
        j += 1;
    }
    assert(s@.subrange(i as int, i + sub.len()) =~= sub@);
    true
}

/// Substring search over character sequences.
pub fn contains_chars(s: &Vec<char>, sub: &Vec<char>) -> (b: bool)
    ensures
        b == contains_seq(s@, sub@),
{
    if sub.len() > s.len() {
        return false;
    }
    let last: usize = s.len() - sub.len();
    let mut i: usize = 0;
    loop
        invariant
            sub.len() <= s.len(),
            last == s.len() - sub.len(),
            i <= last,
            forall|k: int| 0 <= k < i ==> !occurs_at(s@, sub@, k),
        decreases last - i,
    {
        if matches_at(s, sub, i) {
            return true;
        }
        if i == last {
            assert forall|k: int| !occurs_at(s@, sub@, k) by {
                if 0 <= k < i {
                }
            }
            return false;
        }
        i += 1;
    }
}

/// Substring search over strings (`str::contains` with a string pattern).
pub fn contains_str(s: &str, sub: &str) -> (b: bool)
    ensures
        b == contains_seq(s@, sub@),
{
    let a = chars_of(s);
    let b = chars_of(sub);
    contains_chars(&a, &b)
}

/// Leading whitespace removed.
pub open spec fn trim_start(s: Seq<char>) -> Seq<char>
    decreases s.len(),
{
    if s.len() > 0 && unicode_whitespace(s[0]) {
        trim_start(s.drop_first())
    } else {
        s
    }
}

/// Trailing whitespace removed.
pub open spec fn trim_end(s: Seq<char>) -> Seq<char>
    decreases s.len(),
{
    if s.len() > 0 && unicode_whitespace(s.last()) {
        trim_end(s.drop_last())
    } else {
        s
    }
}

/// `str::trim`: leading and trailing whitespace removed.
pub open spec fn trim(s: Seq<char>) -> Seq<char> {
    trim_end(trim_start(s))
}

proof fn lemma_trim_start_skip(s: Seq<char>, i: int)
    requires
        0 <= i <= s.len(),
        forall|k: int| 0 <= k < i ==> unicode_whitespace(#[trigger] s[k]),
    ensures
        trim_start(s) == trim_start(s.skip(i)),
    decreases i,
{
    if i > 0 {
        assert(s.skip(1) =~= s.drop_first());
        lemma_trim_start_skip(s.drop_first(), i - 1);
        assert(s.drop_first().skip(i - 1) =~= s.skip(i));
    } else {
        assert(s.skip(0) =~= s);
    }
}

proof fn lemma_trim_end_take(s: Seq<char>, j: int)
    requires
        0 <= j <= s.len(),
        forall|k: int| j <= k < s.len() ==> unicode_whitespace(#[trigger] s[k]),
    ensures
        trim_end(s) == trim_end(s.take(j)),
    decreases s.len() - j,
{
    if j < s.len() {
        assert(s.take(s.len() - 1) =~= s.drop_last());
        lemma_trim_end_take(s.drop_last(), j);
        assert(s.drop_last().take(j) =~= s.take(j));
    } else {
        assert(s.take(j) =~= s);
    }
}

/// `str::trim` on character vectors.
pub fn trim_chars(s: &Vec<char>) -> (r: Vec<char>)
    ensures
        r@ == trim(s@),
{
    let mut i: usize = 0;
    while i < s.len() && s[i].is_whitespace()
        invariant
            i <= s.len(),
            forall|k: int| 0 <= k < i ==> unicode_whitespace(#[trigger] s@[k]),
        decreases s.len() - i,
    {
        i += 1;
    }
    proof {
        lemma_trim_start_skip(s@, i as int);
    }
    let mut j: usize = s.len();
    while j > i && s[j - 1].is_whitespace()
        invariant
            i <= j <= s.len(),
            forall|k: int| j <= k < s.len() ==> unicode_whitespace(#[trigger] s@[k]),
        decreases j,
    {
        j -= 1;
    }
    let ghost t = s@.skip(i as int);
    proof {
        assert(trim_start(t) == t);
        assert forall|k: int| j - i <= k < t.len() implies unicode_whitespace(#[trigger] t[k]) by {
            assert(t[k] == s@[k + i]);
        }
        lemma_trim_end_take(t, j - i);
    }
    let mut r: Vec<char> = Vec::new();
    let mut k: usize = i;
    while k < j
        invariant
            i <= k <= j <= s.len(),
            r@ == s@.subrange(i as int, k as int),
        decreases j - k,
    {
        r.push(s[k]);
        k += 1;
        assert(r@ =~= s@.subrange(i as int, k as int));
    }
    proof {
        assert(t.take(j - i) =~= s@.subrange(i as int, j as int));
        let tt = t.take(j - i);
        if tt.len() > 0 {
            assert(tt.last() == s@[j - 1]);
        }
        if i == j && i < s.len() {
            assert(!unicode_whitespace(s@[i as int]));
        }
    }
    r
}

/// `str::trim` on strings.
pub fn trim_str(s: &str) -> (r: String)
    ensures
        r@ == trim(s@),
{
    let v = chars_of(s);
    let t = trim_chars(&v);
    string_of(&t)
}

/// Splitting a character sequence at whitespace, as a left fold: the words
/// completed so far and the word being read.
pub open spec fn split_fold(s: Seq<char>) -> (Seq<Seq<char>>, Seq<char>)
    decreases s.len(),
{
    if s.len() == 0 {
        (Seq::empty(), Seq::empty())
    } else {
        let (done, cur) = split_fold(s.drop_last());
        let c = s.last();
        if unicode_whitespace(c) {
            if cur.len() > 0 {
                (done.push(cur), Seq::empty())
            } else {
                (done, cur)
            }
        } else {
            (done, cur.push(c))
        }
    }
}

/// `str::split_whitespace`: the maximal runs of non-whitespace characters, in order.
pub open spec fn words(s: Seq<char>) -> Seq<Seq<char>> {
    let (done, cur) = split_fold(s);
    if cur.len() > 0 {
        done.push(cur)
    } else {
        done
    }
}

/// `str::split_whitespace` on character vectors.
pub fn split_whitespace_chars(s: &Vec<char>) -> (r: Vec<Vec<char>>)
    ensures
        r@.map_values(|w: Vec<char>| w@) == words(s@),
{
    let mut done: Vec<Vec<char>> = Vec::new();
    let mut cur: Vec<char> = Vec::new();
    let mut i: usize = 0;
    while i < s.len()
        invariant
            i <= s.len(),
            (done@.map_values(|w: Vec<char>| w@), cur@) == split_fold(s@.take(i as int)),
        decreases s.len() - i,
    {
        let c = s[i];
        proof {
            assert(s@.take(i + 1).drop_last() =~= s@.take(i as int));
        }
        if c.is_whitespace() {
            if cur.len() > 0 {
                let w = cur;
                done.push(w);
                cur = Vec::new();
                proof {
                    assert(done@.map_values(|w: Vec<char>| w@) =~= split_fold(s@.take(i + 1)).0);
                }
            }
        } else {
            cur.push(c);
        }
        i += 1;
    }
    proof {
        assert(s@.take(s.len() as int) =~= s@);
    }
    if cur.len() > 0 {
        done.push(cur);
        proof {
            assert(done@.map_values(|w: Vec<char>| w@) =~= words(s@));
        }
    }
    done
}

/// `str::split_whitespace` on strings, collecting owned words.
pub fn split_whitespace_str(s: &str) -> (r: Vec<String>)
    ensures
        r@.map_values(|w: String| w@) == words(s@),
{
    let v = chars_of(s);
    let parts = split_whitespace_chars(&v);
    let mut r: Vec<String> = Vec::new();
    let mut i: usize = 0;
    while i < parts.len()
        invariant
            i <= parts.len(),
            r.len() == i,
            forall|k: int| 0 <= k < i ==> #[trigger] r@[k]@ == parts@[k]@,
        decreases parts.len() - i,
    {
        let w = string_of(&parts[i]);
        r.push(w);
        i += 1;
    }
    assert(r@.map_values(|w: String| w@) =~= parts@.map_values(|w: Vec<char>| w@));
    r
}

/// Character-wise equality of two strings.
pub fn str_eq(a: &str, b: &str) -> (r: bool)
    ensures
        r == (a@ == b@),
{
    let x = chars_of(a);
    let y = chars_of(b);
    if x.len() != y.len() {
        return false;
    }
    let mut i: usize = 0;
    while i < x.len()
        invariant
            i <= x.len(),
            x.len() == y.len(),
            x@ == a@,
            y@ == b@,
            forall|k: int| 0 <= k < i ==> x@[k] == y@[k],
        decreases x.len() - i,
    {
        if x[i] != y[i] {
            assert(x@[i as int] != y@[i as int]);
            return false;
        }
        i += 1;
    }
    assert(x@ =~= y@);
    true
}

/// Removing trailing whitespace never removes a first character that is not whitespace.
proof fn lemma_trim_end_keeps_first(t: Seq<char>)
    requires
        t.len() > 0,
        !unicode_whitespace(t[0]),
    ensures
        trim_end(t).len() > 0,
    decreases t.len(),
{
    if unicode_whitespace(t.last()) {
        assert(t.len() > 1);
        assert(t.drop_last()[0] == t[0]);
        lemma_trim_end_keeps_first(t.drop_last());
    }
}

/// Leading whitespace removed leaves nothing only when every character is whitespace.
proof fn lemma_trim_start_empty(s: Seq<char>)
    ensures
        trim_start(s).len() > 0 ==> !unicode_whitespace(trim_start(s)[0]),
        trim_start(s).len() == 0 ==> forall|k: int| 0 <= k < s.len() ==> unicode_whitespace(#[trigger] s[k]),
    decreases s.len(),
{
    if s.len() > 0 && unicode_whitespace(s[0]) {
        lemma_trim_start_empty(s.drop_first());
        assert forall|k: int| 0 <= k < s.len() && trim_start(s).len() == 0 implies unicode_whitespace(#[trigger] s[k]) by {
            if k > 0 {
                assert(s[k] == s.drop_first()[k - 1]);
            }
        }
    }
}

/// A string that trims to nothing is all whitespace.
pub proof fn lemma_blank_all_whitespace(s: Seq<char>)
    requires
        trim(s).len() == 0,
    ensures
        forall|k: int| 0 <= k < s.len() ==> unicode_whitespace(#[trigger] s[k]),
{
    lemma_trim_start_empty(s);
    if trim_start(s).len() > 0 {
        lemma_trim_end_keeps_first(trim_start(s));
    }
}

/// A string of whitespace has no words.
pub proof fn lemma_whitespace_no_words(s: Seq<char>)
    requires
        forall|k: int| 0 <= k < s.len() ==> unicode_whitespace(#[trigger] s[k]),
    ensures
        split_fold(s) == (Seq::<Seq<char>>::empty(), Seq::<char>::empty()),
        words(s) == Seq::<Seq<char>>::empty(),
    decreases s.len(),
{
    if s.len() > 0 {
        assert forall|k: int| 0 <= k < s.drop_last().len() implies unicode_whitespace(#[trigger] s.drop_last()[k]) by {
            assert(s.drop_last()[k] == s[k]);
        }
        lemma_whitespace_no_words(s.drop_last());
        assert(unicode_whitespace(s[s.len() - 1]));
    }
}

} // verus!
