//! `LIKE` pattern matching as the knowledge graph's search uses it: `%` matches any run
//! of characters, `_` any one character, and ASCII letters match regardless of case.
use vstd::prelude::*;

verus! {

/// ASCII letters folded to lowercase; other characters unchanged.
pub open spec fn fold_ascii(c: char) -> char {
    if 'A' <= c && c <= 'Z' {
        ((c as u32) + 32) as char
    } else {
        c
    }
}

/// Character equality up to ASCII case.
pub open spec fn ci_eq(a: char, b: char) -> bool {
    fold_ascii(a) == fold_ascii(b)
}

/// Whether text `t` matches pattern `p`.
pub open spec fn like(t: Seq<char>, p: Seq<char>) -> bool
    decreases p.len(), t.len(),
{
    if p.len() == 0 {
        t.len() == 0
    } else if p[0] == '%' {
        like(t, p.drop_first()) || (t.len() > 0 && like(t.drop_first(), p))
    } else if p[0] == '_' {
        t.len() > 0 && like(t.drop_first(), p.drop_first())
    } else {
        t.len() > 0 && ci_eq(t[0], p[0]) && like(t.drop_first(), p.drop_first())
    }
}

/// The pattern `%q%`: `q` anywhere in the text.
pub open spec fn anywhere(q: Seq<char>) -> Seq<char> {
    seq!['%'] + q + seq!['%']
}

/// Matching a suffix of the text against a suffix of the pattern.
pub open spec fn like_at(t: Seq<char>, p: Seq<char>, i: int, j: int) -> bool {
    like(t.skip(i), p.skip(j))
}

proof fn lemma_like_step(t: Seq<char>, p: Seq<char>, i: int, j: int)
    requires
        0 <= i <= t.len(),
        0 <= j <= p.len(),
    ensures
        like_at(t, p, i, j) == (if j == p.len() {
            i == t.len()
        } else if p[j] == '%' {
            like_at(t, p, i, j + 1) || (i < t.len() && like_at(t, p, i + 1, j))
        } else if p[j] == '_' {
            i < t.len() && like_at(t, p, i + 1, j + 1)
        } else {
            i < t.len() && ci_eq(t[i], p[j]) && like_at(t, p, i + 1, j + 1)
        }),
{
    let ts = t.skip(i);
    let ps = p.skip(j);
    if i < t.len() {
        assert(ts.drop_first() =~= t.skip(i + 1));
        assert(ts[0] == t[i]);
    }
    if j < p.len() {
        assert(ps.drop_first() =~= p.skip(j + 1));
        assert(ps[0] == p[j]);
    }
}

fn fold_exec(c: char) -> (r: char)
    ensures
        r == fold_ascii(c),
{
    if 'A' <= c && c <= 'Z' {
        let u = (c as u32) + 32;
        assert(0x61 <= u <= 0x7a);
        char_from(u)
    } else {
        c
    }
}

/// The character with an ASCII lowercase-letter code.
fn char_from(u: u32) -> (c: char)
    requires
        0x61 <= u <= 0x7a,
    ensures
        c == u as char,
{
    let b: u8 = u as u8;
    b as char
}

/// Whether text `t` matches pattern `p` (see `like`).
pub fn like_chars(t: &Vec<char>, p: &Vec<char>) -> (r: bool)
    ensures
        r == like(t@, p@),
{
    let n = t.len();
    let m = p.len();
    // col[i] == like_at(t, p, i, j) for the current column j.
    let mut col: Vec<bool> = Vec::new();
    let mut i: usize = 0;
    while i < n
        invariant
            n == t.len(),
            m == p.len(),
            i <= n,
            col.len() == i,
            forall|k: int| 0 <= k < i ==> col@[k] == like_at(t@, p@, k, m as int),
        decreases n - i,
    {
        proof {
            lemma_like_step(t@, p@, i as int, m as int);
        }
        col.push(false);
        i += 1;
    }
    proof {
        lemma_like_step(t@, p@, n as int, m as int);
    }
    col.push(true);
    let mut j: usize = m;
    while j > 0
        invariant
            n == t.len(),
            m == p.len(),
            j <= m,
            col.len() == n + 1,
            forall|k: int| 0 <= k <= n ==> col@[k] == like_at(t@, p@, k, j as int),
        decreases j,
    {
        let jj = j - 1;
        let pc = p[jj];
        let mut next: Vec<bool> = Vec::new();
        let mut f: usize = 0;
        while f < n
            invariant
                f <= n,
                next.len() == f,
            decreases n - f,
        {
            next.push(false);
            f += 1;
        }
        proof {
            lemma_like_step(t@, p@, n as int, jj as int);
        }
        let last = if pc == '%' { col[n] } else { false };
        next.push(last);
        let mut k: usize = n;
        while k > 0
            invariant
                n == t.len(),
                m == p.len(),
                jj + 1 == j,
                j <= m,
                pc == p@[jj as int],
                k <= n,
                next.len() == n + 1,
                col.len() == n + 1,
                forall|q: int| 0 <= q <= n ==> col@[q] == like_at(t@, p@, q, j as int),
                forall|q: int| k <= q <= n ==> next@[q] == like_at(t@, p@, q, jj as int),
            decreases k,
        {
            let ii = k - 1;
            proof {
                lemma_like_step(t@, p@, ii as int, jj as int);
            }
            let v = if pc == '%' {
                col[ii] || (ii < n && next[ii + 1])
            } else if pc == '_' {
                ii < n && col[ii + 1]
            } else {
                ii < n && fold_exec(t[ii]) == fold_exec(pc) && col[ii + 1]
            };
            next.set(ii, v);
            k -= 1;
        }
        col = next;
        j = jj;
    }
    proof {
        assert(t@.skip(0) =~= t@);
        assert(p@.skip(0) =~= p@);
    }
    col[0]
}

} // verus!
