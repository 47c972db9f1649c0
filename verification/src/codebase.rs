//! Codebase memory: code elements found in source files (from a syntax tree, or line by
//! line when no grammar applies) and the impact of a change along the call graph.
use vstd::prelude::*;
use crate::text::{words, trim, trim_str, chars_of, string_of, owned, str_eq, split_whitespace_str};
use crate::fusion::{join, join_strings, first_index, lemma_first_index};
use crate::recall::string_views;
use crate::graph::{opt_view, Owner, keys_unique, lemma_replace_keeps_keys_unique};
use crate::scope::{MemoryScope, RowScope, row_scope_of, visible, reachable};
use crate::pattern::{like, anywhere, like_chars};
use crate::traversal::{ImpactSummary, impact_spec, impact_analysis, pair_strings};

verus! {

/// A code element: a function, method, type, trait or impl block of a file.
#[derive(Debug, Clone)]
pub struct CodeElement {
    pub id: String,
    pub file_path: String,
    pub element_type: String,
    pub name: String,
    pub signature: String,
    pub ast_json: Option<String>,
    pub parent_id: Option<String>,
    pub start_line: i64,
    pub end_line: i64,
}

pub struct ElementModel {
    pub id: Seq<char>,
    pub file_path: Seq<char>,
    pub element_type: Seq<char>,
    pub name: Seq<char>,
    pub signature: Seq<char>,
    pub ast_json: Option<Seq<char>>,
    pub parent_id: Option<Seq<char>>,
    pub start_line: int,
    pub end_line: int,
}

impl CodeElement {
    pub open spec fn view(&self) -> ElementModel {
        ElementModel {
            id: self.id@,
            file_path: self.file_path@,
            element_type: self.element_type@,
            name: self.name@,
            signature: self.signature@,
            ast_json: opt_view(self.ast_json),
            parent_id: opt_view(self.parent_id),
            start_line: self.start_line as int,
            end_line: self.end_line as int,
        }
    }
}

pub open spec fn element_views(s: Seq<CodeElement>) -> Seq<ElementModel> {
    s.map_values(|e: CodeElement| e.view())
}

/// A call from one code element to another.
#[derive(Debug, Clone)]
pub struct CodeCall {
    pub caller_id: String,
    pub callee_id: String,
    pub call_site: Option<String>,
}

pub open spec fn digit(d: int) -> char {
    if d == 0 { '0' } else if d == 1 { '1' } else if d == 2 { '2' } else if d == 3 { '3' } else if d == 4 { '4' }
    else if d == 5 { '5' } else if d == 6 { '6' } else if d == 7 { '7' } else if d == 8 { '8' } else { '9' }
}

/// The decimal digits of `n`.
pub open spec fn decimal(n: nat) -> Seq<char>
    decreases n,
{
    if n < 10 {
        seq![digit(n as int)]
    } else {
        decimal(n / 10).push(digit((n % 10) as int))
    }
}

fn digit_exec(d: u64) -> (c: char)
    requires
        d < 10,
    ensures
        c == digit(d as int),
{
    if d == 0 { '0' } else if d == 1 { '1' } else if d == 2 { '2' } else if d == 3 { '3' } else if d == 4 { '4' }
    else if d == 5 { '5' } else if d == 6 { '6' } else if d == 7 { '7' } else if d == 8 { '8' } else { '9' }
}

/// `n` in decimal, as `format!("{}", n)` writes it.
pub fn decimal_string(n: u64) -> (r: String)
    ensures
        r@ == decimal(n as nat),
    decreases n,
{
    if n < 10 {
        let mut s = String::new();
        s.push(digit_exec(n));
        assert(s@ =~= seq![digit(n as int)]);
        s
    } else {
        let mut s = decimal_string(n / 10);
        s.push(digit_exec(n % 10));
        s
    }
}

/// `p` begins `s`.
pub open spec fn begins(s: Seq<char>, p: Seq<char>) -> bool {
    p.len() <= s.len() && s.take(p.len() as int) == p
}

/// The grammars the indexer parses source files with.
#[derive(Debug, Clone, Copy, PartialEq, Eq)]
pub enum SourceLanguage {
    Rust,
    Python,
    JavaScript,
    TypeScript,
    Tsx,
}

/// The grammar for a file extension: Rust for `rs`, Python for `py`, JavaScript for `js`
/// and `jsx`, TypeScript for `ts`, TSX for `tsx`; other files are read line by line.
pub open spec fn language_spec(ext: Seq<char>) -> Option<SourceLanguage> {
    if ext == "rs"@ {
        Some(SourceLanguage::Rust)
    } else if ext == "py"@ {
        Some(SourceLanguage::Python)
    } else if ext == "js"@ || ext == "jsx"@ {
        Some(SourceLanguage::JavaScript)
    } else if ext == "ts"@ {
        Some(SourceLanguage::TypeScript)
    } else if ext == "tsx"@ {
        Some(SourceLanguage::Tsx)
    } else {
        None
    }
}

/// The grammar for a file extension (see `language_spec`).
pub fn language_of(ext: &str) -> (r: Option<SourceLanguage>)
    ensures
        r == language_spec(ext@),
{
    if str_eq(ext, "rs") {
        Some(SourceLanguage::Rust)
    } else if str_eq(ext, "py") {
        Some(SourceLanguage::Python)
    } else if str_eq(ext, "js") || str_eq(ext, "jsx") {
        Some(SourceLanguage::JavaScript)
    } else if str_eq(ext, "ts") {
        Some(SourceLanguage::TypeScript)
    } else if str_eq(ext, "tsx") {
        Some(SourceLanguage::Tsx)
    } else {
        None
    }
}

/// The file extensions a directory scan indexes.
pub open spec fn indexed_extension(ext: Seq<char>) -> bool {
    ext == "rs"@ || ext == "py"@ || ext == "js"@ || ext == "jsx"@ || ext == "ts"@ || ext == "tsx"@ || ext == "go"@
}

/// Whether a directory scan indexes files with this extension.
pub fn is_indexed_extension(ext: &str) -> (b: bool)
    ensures
        b == indexed_extension(ext@),
{
    str_eq(ext, "rs") || str_eq(ext, "py") || str_eq(ext, "js") || str_eq(ext, "jsx") || str_eq(ext, "ts")
        || str_eq(ext, "tsx") || str_eq(ext, "go")
}

/// The directories a scan skips: build output, version control, vendored code and
/// installed packages.
pub open spec fn skipped_directory(name: Seq<char>) -> bool {
    name == "target"@ || name == ".git"@ || name == "external"@ || name == "node_modules"@
}

/// Whether a directory scan skips a directory of this name.
pub fn is_skipped_directory(name: &str) -> (b: bool)
    ensures
        b == skipped_directory(name@),
{
    str_eq(name, "target") || str_eq(name, ".git") || str_eq(name, "external") || str_eq(name, "node_modules")
}

/// `str::starts_with` with a string prefix.
pub fn starts_with(s: &str, p: &str) -> (b: bool)
    ensures
        b == begins(s@, p@),
{
    let a = chars_of(s);
    let b = chars_of(p);
    if b.len() > a.len() {
        return false;
    }
    let mut i: usize = 0;
    while i < b.len()
        invariant
            i <= b.len(),
            b.len() <= a.len(),
            a@ == s@,
            b@ == p@,
            forall|k: int| 0 <= k < i ==> a@[k] == b@[k],
        decreases b.len() - i,
    {
        if a[i] != b[i] {
            assert(s@.take(p@.len() as int)[i as int] != p@[i as int]);
            return false;
        }
        i += 1;
    }
    assert(s@.take(p@.len() as int) =~= p@);
    true
}

pub open spec fn is_char(c: char) -> spec_fn(char) -> bool {
    |x: char| x == c
}

/// The part of `s` before the first `c` (all of `s` when there is none), as the first
/// piece of `str::split(c)`.
pub open spec fn before_char(s: Seq<char>, c: char) -> Seq<char> {
    let i = first_index(s, is_char(c));
    if i < 0 { s } else { s.take(i) }
}

pub fn before_char_exec(s: &str, c: char) -> (r: String)
    ensures
        r@ == before_char(s@, c),
{
    let v = chars_of(s);
    let mut i: usize = 0;
    while i < v.len()
        invariant
            i <= v.len(),
            v@ == s@,
            forall|k: int| 0 <= k < i ==> !is_char(c)(#[trigger] v@[k]),
        decreases v.len() - i,
    {
        if v[i] == c {
            proof {
                lemma_first_index(v@, is_char(c), i as int);
            }
            let mut r = String::new();
            let mut k: usize = 0;
            while k < i
                invariant
                    k <= i,
                    i < v.len(),
                    r@ == v@.take(k as int),
                decreases i - k,
            {
                r.push(v[k]);
                assert(r@ =~= v@.take(k + 1));
                k += 1;
            }
            return r;
        }
        i += 1;
    }
    proof {
        lemma_first_index(v@, is_char(c), v.len() as int);
    }
    owned(s)
}

/// The last whitespace-separated word of `s`, or "unknown".
pub open spec fn last_word(s: Seq<char>) -> Seq<char> {
    if words(s).len() > 0 { words(s).last() } else { "unknown"@ }
}

fn last_word_exec(s: &str) -> (r: String)
    ensures
        r@ == last_word(s@),
{
    let ws = split_whitespace_str(s);
    if ws.len() > 0 {
        assert(string_views(ws@).last() == ws@[ws.len() - 1]@);
        ws[ws.len() - 1].clone()
    } else {
        owned("unknown")
    }
}

/// What the line-based fallback recognises in a trimmed line: the element type, name
/// and signature.
pub open spec fn line_element(t: Seq<char>) -> Option<(Seq<char>, Seq<char>, Seq<char>)> {
    if begins(t, "pub fn "@) || begins(t, "fn "@) || begins(t, "def "@) {
        let p = before_char(t, '(');
        Some(("Function"@, last_word(p), p + "(...)"@))
    } else if begins(t, "pub struct "@) || begins(t, "struct "@) {
        let p = before_char(t, '{');
        Some(("Struct"@, last_word(p), trim(p)))
    } else if begins(t, "class "@) {
        let p = before_char(t, ':');
        Some(("Class"@, last_word(p), trim(p)))
    } else if begins(t, "pub impl"@) || begins(t, "impl"@) {
        let p = before_char(t, '{');
        Some(("ImplBlock"@, "impl_"@ + last_word(p), trim(p)))
    } else if begins(t, "pub enum "@) || begins(t, "enum "@) {
        let p = before_char(t, '{');
        Some(("Enum"@, last_word(p), trim(p)))
    } else {
        None
    }
}

/// The element identifier: file, name and starting line.
pub open spec fn element_id(path: Seq<char>, name: Seq<char>, line: nat) -> Seq<char> {
    path + ":"@ + name + ":"@ + decimal(line)
}

/// The element the fallback records for line number `n` (from 1): it spans six lines.
pub open spec fn fallback_element(path: Seq<char>, line: Seq<char>, n: nat) -> Option<ElementModel> {
    match line_element(trim(line)) {
        Some((ty, name, sig)) => Some(ElementModel {
            id: element_id(path, name, n),
            file_path: path,
            element_type: ty,
            name: name,
            signature: sig,
            ast_json: None,
            parent_id: None,
            start_line: n as int,
            end_line: n as int + 5,
        }),
        None => None,
    }
}

fn line_element_exec(t: &str) -> (r: Option<(String, String, String)>)
    ensures
        match r {
            Some(x) => line_element(t@) == Some((x.0@, x.1@, x.2@)),
            None => line_element(t@) is None,
        },
{
    if starts_with(t, "pub fn ") || starts_with(t, "fn ") || starts_with(t, "def ") {
        let p = before_char_exec(t, '(');
        let name = last_word_exec(p.as_str());
        let mut sig = p.clone();
        sig.append("(...)");
        Some((owned("Function"), name, sig))
    } else if starts_with(t, "pub struct ") || starts_with(t, "struct ") {
        let p = before_char_exec(t, '{');
        Some((owned("Struct"), last_word_exec(p.as_str()), trim_str(p.as_str())))
    } else if starts_with(t, "class ") {
        let p = before_char_exec(t, ':');
        Some((owned("Class"), last_word_exec(p.as_str()), trim_str(p.as_str())))
    } else if starts_with(t, "pub impl") || starts_with(t, "impl") {
        let p = before_char_exec(t, '{');
        let mut name = owned("impl_");
        let w = last_word_exec(p.as_str());
        name.append(w.as_str());
        Some((owned("ImplBlock"), name, trim_str(p.as_str())))
    } else if starts_with(t, "pub enum ") || starts_with(t, "enum ") {
        let p = before_char_exec(t, '{');
        Some((owned("Enum"), last_word_exec(p.as_str()), trim_str(p.as_str())))
    } else {
        None
    }
}

fn element_id_exec(path: &str, name: &str, line: u64) -> (r: String)
    ensures
        r@ == element_id(path@, name@, line as nat),
{
    let mut id = owned(path);
    id.append(":");
    id.append(name);
    id.append(":");
    let d = decimal_string(line);
    id.append(d.as_str());
    id
}

/// The lines of a text: split at each newline, without a last empty piece (a carriage
/// return before a newline stays in its line; every use of a line trims it).
pub open spec fn line_fold(s: Seq<char>) -> (Seq<Seq<char>>, Seq<char>)
    decreases s.len(),
{
    if s.len() == 0 {
        (Seq::empty(), Seq::empty())
    } else {
        let (done, cur) = line_fold(s.drop_last());
        if s.last() == '\n' { (done.push(cur), Seq::empty()) } else { (done, cur.push(s.last())) }
    }
}

pub open spec fn text_lines(s: Seq<char>) -> Seq<Seq<char>> {
    let (done, cur) = line_fold(s);
    if cur.len() > 0 { done.push(cur) } else { done }
}

fn text_lines_exec(s: &str) -> (r: Vec<String>)
    ensures
        string_views(r@) == text_lines(s@),
{
    let v = chars_of(s);
    let mut done: Vec<String> = Vec::new();
    let mut cur: Vec<char> = Vec::new();
    let mut i: usize = 0;
    while i < v.len()
        invariant
            i <= v.len(),
            v@ == s@,
            (string_views(done@), cur@) == line_fold(v@.take(i as int)),
        decreases v.len() - i,
    {
        proof {
            assert(v@.take(i + 1).drop_last() =~= v@.take(i as int));
            assert(v@.take(i + 1).last() == v@[i as int]);
        }
        if v[i] == '\n' {
            let ghost d0 = string_views(done@);
            done.push(string_of(&cur));
            cur = Vec::new();
            assert(string_views(done@) =~= d0.push(line_fold(v@.take(i as int)).1));
            assert(cur@ =~= Seq::<char>::empty());
        } else {
            cur.push(v[i]);
        }
        i += 1;
    }
    assert(v@.take(v.len() as int) =~= v@);
    if cur.len() > 0 {
        let ghost d0 = string_views(done@);
        done.push(string_of(&cur));
        assert(string_views(done@) =~= d0.push(cur@));
    }
    done
}

/// The elements the line-based fallback finds in a file's text, line by line.
pub open spec fn fallback_elements(path: Seq<char>, lines: Seq<Seq<char>>) -> Seq<ElementModel>
    decreases lines.len(),
{
    if lines.len() == 0 {
        Seq::empty()
    } else {
        let p = fallback_elements(path, lines.drop_last());
        match fallback_element(path, lines.last(), lines.len()) {
            Some(e) => p.push(e),
            None => p,
        }
    }
}

/// The codebase store: code elements with the owner each was indexed under, and the
/// calls between elements, in storage order.
pub struct CodebaseMemory {
    elements: Vec<ElementRow>,
    calls: Vec<CodeCall>,
}

impl CodebaseMemory {
    /// The code elements that the line-based fallback recognises in a file's text: a
    /// trimmed line starting with a function, struct, class, impl or enum keyword gives an
    /// element named by the last word before its parameter list or body, starting at that
    /// line and spanning six lines.
    pub fn parse_file_fallback(relative_path: &str, content: &str) -> (r: Vec<CodeElement>)
        requires
            content@.len() < 0x7fff_ffff_ffff_0000,
        ensures
            element_views(r@) == fallback_elements(relative_path@, text_lines(content@)),
    {
        let lines = text_lines_exec(content);
        let ghost ls = string_views(lines@);
        proof {
            lemma_line_count(content@);
        }
        let mut out: Vec<CodeElement> = Vec::new();
        let mut i: usize = 0;
        assert(element_views(out@) =~= fallback_elements(relative_path@, ls.take(0)));
        while i < lines.len()
            invariant
                i <= lines.len(),
                ls == string_views(lines@),
                lines.len() <= content@.len(),
                content@.len() < 0x7fff_ffff_ffff_0000,
                element_views(out@) == fallback_elements(relative_path@, ls.take(i as int)),
            decreases lines.len() - i,
        {
            proof {
                assert(ls.take(i + 1).drop_last() =~= ls.take(i as int));
                assert(ls.take(i + 1).last() == lines@[i as int]@);
            }
            let n: u64 = (i + 1) as u64;
            let t = trim_str(lines[i].as_str());
            match line_element_exec(t.as_str()) {
                Some((ty, name, sig)) => {
                    let ghost before = element_views(out@);
                    let id = element_id_exec(relative_path, name.as_str(), n);
                    let el = CodeElement {
                        id,
                        file_path: owned(relative_path),
                        element_type: ty,
                        name,
                        signature: sig,
                        ast_json: None,
                        parent_id: None,
                        start_line: n as i64,
                        end_line: n as i64 + 5,
                    };
                    out.push(el);
                    assert(element_views(out@) =~= before.push(fallback_element(relative_path@, lines@[i as int]@, (i + 1) as nat).unwrap()));
                },
                None => {},
            }
            i += 1;
        }
        assert(ls.take(lines.len() as int) =~= ls);
        out
    }
}

proof fn lemma_line_count(s: Seq<char>)
    ensures
        text_lines(s).len() <= s.len(),
        line_fold(s).0.len() + line_fold(s).1.len() <= s.len(),
        line_fold(s).1.len() > 0 ==> line_fold(s).0.len() + 1 <= s.len(),
    decreases s.len(),
{
    if s.len() > 0 {
        lemma_line_count(s.drop_last());
    }
}


/// A node of a syntax tree as the indexer reads it: its kind, first and last row (from
/// 0), its source text when that is valid UTF-8, its S-expression, and its children.
#[derive(Debug)]
pub struct SyntaxNode {
    pub kind: String,
    pub start_row: u32,
    pub end_row: u32,
    pub text: Option<String>,
    pub sexp: String,
    pub children: Vec<SyntaxNode>,
}

/// A syntax tree as a mathematical value: kind, first and last row, source text, S-expression
/// and children.
pub struct SyntaxNodeModel {
    pub kind: Seq<char>,
    pub start_row: u32,
    pub end_row: u32,
    pub text: Option<Seq<char>>,
    pub sexp: Seq<char>,
    pub children: Seq<SyntaxNodeModel>,
}

impl SyntaxNode {
    pub open spec fn view(&self) -> SyntaxNodeModel
        decreases self,
    {
        SyntaxNodeModel {
            kind: self.kind@,
            start_row: self.start_row,
            end_row: self.end_row,
            text: opt_view(self.text),
            sexp: self.sexp@,
            children: Seq::new(self.children@.len(), |i: int| if 0 <= i < self.children@.len() { self.children@[i].view() } else { self.view_leaf() }),
        }
    }
}

impl SyntaxNode {
    /// The node without its children.
    pub open spec fn view_leaf(&self) -> SyntaxNodeModel {
        SyntaxNodeModel {
            kind: self.kind@,
            start_row: self.start_row,
            end_row: self.end_row,
            text: opt_view(self.text),
            sexp: self.sexp@,
            children: Seq::empty(),
        }
    }
}

pub open spec fn opt_node_view(o: Option<SyntaxNode>) -> Option<SyntaxNodeModel> {
    match o {
        Some(n) => Some(n.view()),
        None => None,
    }
}

pub open spec fn named_kind(k: Seq<char>) -> bool {
    k == "identifier"@ || k == "type_identifier"@ || k == "property_identifier"@
}

pub open spec fn names_node() -> spec_fn(SyntaxNodeModel) -> bool {
    |c: SyntaxNodeModel| named_kind(c.kind) && c.text is Some
}

/// The name of a node: the text of its first identifier child.
pub open spec fn node_name(n: SyntaxNodeModel) -> Option<Seq<char>> {
    let i = first_index(n.children, names_node());
    if i < 0 { None } else { Some(n.children[i].text.unwrap()) }
}

/// The signature of a node: its text before the body delimiter with whitespace runs
/// collapsed to single spaces; without the delimiter, its first line trimmed.
pub open spec fn node_signature(n: SyntaxNodeModel, delim: char) -> Seq<char> {
    match n.text {
        Some(t) => if first_index(t, is_char(delim)) >= 0 {
            join(words(before_char(t, delim)), " "@)
        } else {
            trim(before_char(t, '\n'))
        },
        None => Seq::empty(),
    }
}

/// The element type and body delimiter of the node kinds indexed by name (Rust, Python,
/// JavaScript and TypeScript grammars); functions nested in an element are methods.
pub open spec fn kind_rule(k: Seq<char>, nested: bool) -> Option<(Seq<char>, char)> {
    let fun: Seq<char> = if nested { "Method"@ } else { "Function"@ };
    if k == "function_item"@ { Some((fun, '{')) }
    else if k == "struct_item"@ { Some(("Struct"@, '{')) }
    else if k == "enum_item"@ { Some(("Enum"@, '{')) }
    else if k == "trait_item"@ { Some(("Trait"@, '{')) }
    else if k == "class_definition"@ { Some(("Class"@, ':')) }
    else if k == "function_definition"@ { Some((fun, ':')) }
    else if k == "class_declaration"@ { Some(("Class"@, '{')) }
    else if k == "function_declaration"@ { Some((fun, '{')) }
    else if k == "method_definition"@ { Some(("Method"@, '{')) }
    else if k == "interface_declaration"@ { Some(("Interface"@, '{')) }
    else if k == "type_alias_declaration"@ { Some(("TypeAlias"@, '=')) }
    else if k == "enum_declaration"@ { Some(("Enum"@, '{')) }
    else { None }
}

/// What a node is indexed as: its type, name and signature.  An impl block is named by
/// its signature.
pub open spec fn classify(n: SyntaxNodeModel, nested: bool) -> Option<(Seq<char>, Seq<char>, Seq<char>)> {
    if n.kind == "impl_item"@ {
        let s = node_signature(n, '{');
        Some(("ImplBlock"@, s, s))
    } else {
        match kind_rule(n.kind, nested) {
            Some((ty, d)) => match node_name(n) {
                Some(name) => Some((ty, name, node_signature(n, d))),
                None => None,
            },
            None => None,
        }
    }
}

/// The element recorded for a node, under the enclosing element `parent`.
pub open spec fn node_element(path: Seq<char>, n: SyntaxNodeModel, parent: Option<Seq<char>>) -> Option<ElementModel> {
    match classify(n, parent is Some) {
        Some((ty, name, sig)) => Some(ElementModel {
            id: element_id(path, name, (n.start_row + 1) as nat),
            file_path: path,
            element_type: ty,
            name: name,
            signature: sig,
            ast_json: Some(n.sexp),
            parent_id: parent,
            start_line: n.start_row + 1,
            end_line: n.end_row + 1,
        }),
        None => None,
    }
}

/// The elements of a syntax tree in pre-order: the node's own element, then those of its
/// children, which have it (or else the enclosing element) as their parent.
pub open spec fn tree_elements(path: Seq<char>, n: SyntaxNodeModel, parent: Option<Seq<char>>) -> Seq<ElementModel>
    decreases n, n.children.len() + 1,
{
    let me = node_element(path, n, parent);
    let next = match me {
        Some(e) => Some(e.id),
        None => parent,
    };
    (match me {
        Some(e) => seq![e],
        None => Seq::empty(),
    }) + children_elements(path, n, n.children.len() as int, next)
}

/// The elements of the first `k` children of `n`.
pub open spec fn children_elements(path: Seq<char>, n: SyntaxNodeModel, k: int, parent: Option<Seq<char>>) -> Seq<ElementModel>
    decreases n, k,
{
    if k <= 0 || k > n.children.len() {
        Seq::empty()
    } else {
        children_elements(path, n, k - 1, parent) + tree_elements(path, n.children[k - 1], parent)
    }
}

fn node_name_exec(n: &SyntaxNode) -> (r: Option<String>)
    ensures
        match r {
            Some(s) => node_name(n.view()) == Some(s@),
            None => node_name(n.view()) is None,
        },
{
    let mut i: usize = 0;
    while i < n.children.len()
        invariant
            i <= n.children.len(),
            forall|k: int| 0 <= k < i ==> !names_node()(#[trigger] n.view().children[k]),
        decreases n.children.len() - i,
    {
        let c = &n.children[i];
        assert(n.view().children[i as int] == c.view());
        assert(c.view().kind == c.kind@ && c.view().text == opt_view(c.text));
        let k = c.kind.as_str();
        if str_eq(k, "identifier") || str_eq(k, "type_identifier") || str_eq(k, "property_identifier") {
            match &c.text {
                Some(t) => {
                    proof {
                        lemma_first_index(n.view().children, names_node(), i as int);
                    }
                    return Some(t.clone());
                },
                None => {},
            }
        }
        i += 1;
    }
    proof {
        lemma_first_index(n.view().children, names_node(), i as int);
    }
    None
}

fn node_signature_exec(n: &SyntaxNode, delim: char) -> (r: String)
    ensures
        r@ == node_signature(n.view(), delim),
{
    match &n.text {
        Some(t) => {
            let v = chars_of(t.as_str());
            let mut i: usize = 0;
            let mut found = false;
            while !found && i < v.len()
                invariant
                    i <= v.len(),
                    v@ == t@,
                    forall|k: int| 0 <= k < i ==> !is_char(delim)(#[trigger] v@[k]),
                    found ==> i < v.len() && is_char(delim)(v@[i as int]),
                decreases v.len() - i + (if found { 0int } else { 1int }),
            {
                if v[i] == delim {
                    found = true;
                } else {
                    i += 1;
                }
            }
            proof {
                lemma_first_index(v@, is_char(delim), i as int);
            }
            if found {
                let p = before_char_exec(t.as_str(), delim);
                let ws = split_whitespace_str(p.as_str());
                join_strings(&ws, " ")
            } else {
                let p = before_char_exec(t.as_str(), '\n');
                trim_str(p.as_str())
            }
        },
        None => String::new(),
    }
}

fn kind_rule_exec(k: &str, nested: bool) -> (r: Option<(String, char)>)
    ensures
        match r {
            Some(x) => kind_rule(k@, nested) == Some((x.0@, x.1)),
            None => kind_rule(k@, nested) is None,
        },
{
    let fun = if nested { owned("Method") } else { owned("Function") };
    if str_eq(k, "function_item") { Some((fun, '{')) }
    else if str_eq(k, "struct_item") { Some((owned("Struct"), '{')) }
    else if str_eq(k, "enum_item") { Some((owned("Enum"), '{')) }
    else if str_eq(k, "trait_item") { Some((owned("Trait"), '{')) }
    else if str_eq(k, "class_definition") { Some((owned("Class"), ':')) }
    else if str_eq(k, "function_definition") { Some((fun, ':')) }
    else if str_eq(k, "class_declaration") { Some((owned("Class"), '{')) }
    else if str_eq(k, "function_declaration") { Some((fun, '{')) }
    else if str_eq(k, "method_definition") { Some((owned("Method"), '{')) }
    else if str_eq(k, "interface_declaration") { Some((owned("Interface"), '{')) }
    else if str_eq(k, "type_alias_declaration") { Some((owned("TypeAlias"), '=')) }
    else if str_eq(k, "enum_declaration") { Some((owned("Enum"), '{')) }
    else { None }
}

fn classify_exec(n: &SyntaxNode, nested: bool) -> (r: Option<(String, String, String)>)
    ensures
        match r {
            Some(x) => classify(n.view(), nested) == Some((x.0@, x.1@, x.2@)),
            None => classify(n.view(), nested) is None,
        },
{
    if str_eq(n.kind.as_str(), "impl_item") {
        let s = node_signature_exec(n, '{');
        return Some((owned("ImplBlock"), s.clone(), s));
    }
    match kind_rule_exec(n.kind.as_str(), nested) {
        Some((ty, d)) => match node_name_exec(n) {
            Some(name) => Some((ty, name, node_signature_exec(n, d))),
            None => None,
        },
        None => None,
    }
}

#[verifier::external_type_specification]
#[verifier::external_body]
pub struct ExSyntaxTreeNode<'a>(tree_sitter::Node<'a>);

/// The syntax tree that tree-sitter's grammar for `language` parses `content` into, as a
/// model, or `None` when the grammar cannot be loaded or the parse is abandoned.
pub uninterp spec fn tree_sitter_tree(language: SourceLanguage, content: Seq<char>) -> Option<SyntaxNodeModel>;

/// A tree-sitter node and its subtree as plain values (`Node::kind`, `start_position`,
/// `end_position`, `utf8_text`, `to_sexp` and `child`, node by node).  Nothing is promised
/// of the result on its own: `parse_syntax` names the whole parse.
#[verifier::external_body]
fn syntax_node(node: tree_sitter::Node, source: &[u8]) -> SyntaxNode {
    let mut children = Vec::new();
    for i in 0..node.child_count() {
        if let Some(c) = node.child(i) {
            children.push(syntax_node(c, source));
        }
    }
    SyntaxNode { kind: node.kind().to_string(), start_row: node.start_position().row as u32,
        end_row: node.end_position().row as u32, text: node.utf8_text(source).ok().map(str::to_string),
        sexp: node.to_sexp(), children }
}

/// `Parser::set_language` with the grammar for `language` (from `tree_sitter_rust`,
/// `tree_sitter_python`, `tree_sitter_javascript` or `tree_sitter_typescript`), then
/// `Parser::parse`: the tree as plain values, named `tree_sitter_tree`; `None` when the
/// grammar is refused or no tree comes back.
#[verifier::external_body]
fn parse_syntax(language: SourceLanguage, content: &str) -> (r: Option<SyntaxNode>)
    ensures
        opt_node_view(r) == tree_sitter_tree(language, content@),
{
    let grammar: tree_sitter::Language = match language {
        SourceLanguage::Rust => tree_sitter_rust::LANGUAGE.into(),
        SourceLanguage::Python => tree_sitter_python::LANGUAGE.into(),
        SourceLanguage::JavaScript => tree_sitter_javascript::LANGUAGE.into(),
        SourceLanguage::TypeScript => tree_sitter_typescript::LANGUAGE_TYPESCRIPT.into(),
        SourceLanguage::Tsx => tree_sitter_typescript::LANGUAGE_TSX.into(),
    };
    let mut parser = tree_sitter::Parser::new();
    parser.set_language(&grammar).ok()?;
    let tree = parser.parse(content, None)?;
    Some(syntax_node(tree.root_node(), content.as_bytes()))
}

impl CodebaseMemory {
    /// The code elements of a source file's text: with a grammar, those of the syntax tree
    /// tree-sitter parses it into (none when there is no tree); without one, those the
    /// line-based fallback recognises.
    pub fn index_source(relative_path: &str, language: Option<SourceLanguage>, content: &str) -> (r: Vec<CodeElement>)
        requires
            content@.len() < 0x7fff_ffff_ffff_0000,
        ensures
            element_views(r@) == match language {
                None => fallback_elements(relative_path@, text_lines(content@)),
                Some(l) => match tree_sitter_tree(l, content@) {
                    Some(t) => tree_elements(relative_path@, t, None),
                    None => Seq::<ElementModel>::empty(),
                },
            },
    {
        match language {
            None => Self::parse_file_fallback(relative_path, content),
            Some(l) => match parse_syntax(l, content) {
                Some(t) => {
                    let mut out: Vec<CodeElement> = Vec::new();
                    Self::traverse_and_index(relative_path, &t, &None, &mut out);
                    assert(element_views(out@) =~= tree_elements(relative_path@, t.view(), None));
                    out
                },
                None => {
                    let out: Vec<CodeElement> = Vec::new();
                    assert(element_views(out@) =~= Seq::<ElementModel>::empty());
                    out
                },
            },
        }
    }
}

impl CodebaseMemory {
    /// The code elements of a syntax tree, in pre-order (see `tree_elements`), under the
    /// enclosing element `parent_id`.
    pub fn traverse_and_index(relative_path: &str, node: &SyntaxNode, parent_id: &Option<String>, out: &mut Vec<CodeElement>)
        ensures
            element_views(final(out)@) == element_views(old(out)@) + tree_elements(relative_path@, node.view(), opt_view(*parent_id)),
        decreases node,
    {
        let ghost o0 = element_views(out@);
        let ghost parent = opt_view(*parent_id);
        let mut next: Option<String> = crate::scope::clone_opt(parent_id);
        match classify_exec(node, parent_id.is_some()) {
            Some((ty, name, sig)) => {
                let line: u64 = node.start_row as u64 + 1;
                let id = element_id_exec(relative_path, name.as_str(), line);
                next = Some(id.clone());
                out.push(CodeElement {
                    id,
                    file_path: owned(relative_path),
                    element_type: ty,
                    name,
                    signature: sig,
                    ast_json: Some(node.sexp.clone()),
                    parent_id: crate::scope::clone_opt(parent_id),
                    start_line: node.start_row as i64 + 1,
                    end_line: node.end_row as i64 + 1,
                });
                assert(element_views(out@) =~= o0.push(node_element(relative_path@, node.view(), parent).unwrap()));
            },
            None => {
                assert(element_views(out@) =~= o0);
            },
        }
        let ghost o1 = element_views(out@);
        let ghost nv = opt_view(next);
        assert(nv == match node_element(relative_path@, node.view(), parent) { Some(e) => Some(e.id), None => parent });
        let mut i: usize = 0;
        assert(children_elements(relative_path@, node.view(), 0, nv) =~= Seq::<ElementModel>::empty());
        while i < node.children.len()
            invariant
                i <= node.children.len(),
                nv == opt_view(next),
                element_views(out@) == o1 + children_elements(relative_path@, node.view(), i as int, nv),
            decreases node.children.len() - i,
        {
            let ghost before = element_views(out@);
            Self::traverse_and_index(relative_path, &node.children[i], &next, out);
            assert(element_views(out@) =~= o1 + children_elements(relative_path@, node.view(), i + 1, nv));
            i += 1;
        }
        assert(element_views(out@) =~= o0 + tree_elements(relative_path@, node.view(), parent));
    }
}


/// A stored code element and its owner.
#[derive(Debug, Clone)]
pub struct ElementRow {
    pub element: CodeElement,
    pub owner: RowScope,
}

impl ElementRow {
    pub open spec fn view(&self) -> (ElementModel, Owner) {
        (self.element.view(), self.owner.view())
    }
}

pub open spec fn element_rows_view(s: Seq<ElementRow>) -> Seq<(ElementModel, Owner)> {
    s.map_values(|r: ElementRow| r.view())
}

pub struct CallModel {
    pub caller_id: Seq<char>,
    pub callee_id: Seq<char>,
    pub call_site: Option<Seq<char>>,
}

impl CodeCall {
    pub open spec fn view(&self) -> CallModel {
        CallModel { caller_id: self.caller_id@, callee_id: self.callee_id@, call_site: opt_view(self.call_site) }
    }

    pub fn duplicate(&self) -> (r: Self)
        ensures
            r.view() == self.view(),
    {
        CodeCall { caller_id: self.caller_id.clone(), callee_id: self.callee_id.clone(), call_site: crate::scope::clone_opt(&self.call_site) }
    }
}

pub open spec fn call_views(s: Seq<CodeCall>) -> Seq<CallModel> {
    s.map_values(|c: CodeCall| c.view())
}

impl CodeElement {
    pub fn duplicate(&self) -> (r: Self)
        ensures
            r.view() == self.view(),
    {
        CodeElement {
            id: self.id.clone(),
            file_path: self.file_path.clone(),
            element_type: self.element_type.clone(),
            name: self.name.clone(),
            signature: self.signature.clone(),
            ast_json: crate::scope::clone_opt(&self.ast_json),
            parent_id: crate::scope::clone_opt(&self.parent_id),
            start_line: self.start_line,
            end_line: self.end_line,
        }
    }
}

pub open spec fn other_id(id: Seq<char>) -> spec_fn((ElementModel, Owner)) -> bool {
    |r: (ElementModel, Owner)| r.0.id != id
}

pub open spec fn element_key() -> spec_fn((ElementModel, Owner)) -> Seq<char> {
    |r: (ElementModel, Owner)| r.0.id
}

/// Indexing keeps element identifiers unique: if no two stored elements share an
/// identifier before an element is indexed, none do after.
pub proof fn law_element_ids_stay_unique(elements: Seq<(ElementModel, Owner)>, el: ElementModel, owner: Owner)
    requires
        keys_unique(elements, element_key()),
    ensures
        keys_unique(elements.filter(other_id(el.id)).push((el, owner)), element_key()),
{
    lemma_replace_keeps_keys_unique(elements, element_key(), other_id(el.id), (el, owner));
}

pub open spec fn other_call(c: CallModel) -> spec_fn(CallModel) -> bool {
    |x: CallModel| !(x.caller_id == c.caller_id && x.callee_id == c.callee_id)
}

/// An element matches a query when its name or type contains it (`%` and `_` act as
/// wildcards, ASCII letters match either case).
pub open spec fn element_selected(row: (ElementModel, Owner), file_path: Seq<char>, query: Seq<char>, scope: MemoryScope) -> bool {
    &&& visible(scope, row.1)
    &&& (file_path.len() == 0 || row.0.file_path == file_path)
    &&& (query.len() == 0 || like(row.0.name, anywhere(query)) || like(row.0.element_type, anywhere(query)))
}

pub open spec fn selected(file_path: Seq<char>, query: Seq<char>, scope: MemoryScope) -> spec_fn((ElementModel, Owner)) -> bool {
    |r: (ElementModel, Owner)| element_selected(r, file_path, query, scope)
}

pub open spec fn call_selected(c: CallModel, caller: Seq<char>, callee: Seq<char>) -> bool {
    (caller.len() == 0 || c.caller_id == caller) && (callee.len() == 0 || c.callee_id == callee)
}

pub open spec fn calls_selected(caller: Seq<char>, callee: Seq<char>) -> spec_fn(CallModel) -> bool {
    |c: CallModel| call_selected(c, caller, callee)
}

pub open spec fn in_reach(scope: MemoryScope) -> spec_fn((ElementModel, Owner)) -> bool {
    |r: (ElementModel, Owner)| reachable(scope, r.1)
}

fn like_str(t: &str, q: &str) -> (b: bool)
    ensures
        b == like(t@, anywhere(q@)),
{
    let tv = chars_of(t);
    let mut p: Vec<char> = Vec::new();
    p.push('%');
    let qv = chars_of(q);
    let mut i: usize = 0;
    while i < qv.len()
        invariant
            i <= qv.len(),
            p@ == seq!['%'] + qv@.take(i as int),
        decreases qv.len() - i,
    {
        p.push(qv[i]);
        assert(p@ =~= seq!['%'] + qv@.take(i + 1));
        i += 1;
    }
    p.push('%');
    assert(p@ =~= anywhere(q@));
    like_chars(&tv, &p)
}

impl CodebaseMemory {
    pub closed spec fn elements(&self) -> Seq<(ElementModel, Owner)> {
        element_rows_view(self.elements@)
    }

    pub closed spec fn calls(&self) -> Seq<CallModel> {
        call_views(self.calls@)
    }

    /// An empty store.
    pub fn new() -> (r: Self)
        ensures
            r.elements() == Seq::<(ElementModel, Owner)>::empty(),
            r.calls() == Seq::<CallModel>::empty(),
    {
        let r = CodebaseMemory { elements: Vec::new(), calls: Vec::new() };
        assert(r.elements() =~= Seq::<(ElementModel, Owner)>::empty());
        assert(r.calls() =~= Seq::<CallModel>::empty());
        r
    }

    /// A store holding the given rows, in order.
    pub fn from_rows(elements: Vec<ElementRow>, calls: Vec<CodeCall>) -> (r: Self)
        ensures
            r.elements() == element_rows_view(elements@),
            r.calls() == call_views(calls@),
    {
        CodebaseMemory { elements, calls }
    }

    /// The stored element rows, in storage order.
    pub fn element_rows(&self) -> (r: &Vec<ElementRow>)
        ensures
            element_rows_view(r@) == self.elements(),
    {
        &self.elements
    }

    /// The stored calls, in storage order.
    pub fn call_rows(&self) -> (r: &Vec<CodeCall>)
        ensures
            call_views(r@) == self.calls(),
    {
        &self.calls
    }

    /// Indexes an element under the owner of `scope`: a stored element with the same
    /// identifier is replaced, and the element goes last.
    pub fn index_element(&mut self, el: CodeElement, scope: &MemoryScope)
        ensures
            final(self).elements() == old(self).elements().filter(other_id(el.view().id)).push((el.view(), row_scope_of(*scope))),
            final(self).calls() == old(self).calls(),
    {
        let ghost e0 = self.elements();
        let mut kept: Vec<ElementRow> = Vec::new();
        let mut i: usize = 0;
        while i < self.elements.len()
            invariant
                i <= self.elements.len(),
                e0 == self.elements(),
                e0 == old(self).elements(),
                self.calls() == old(self).calls(),
                element_rows_view(kept@) == e0.take(i as int).filter(other_id(el.view().id)),
            decreases self.elements.len() - i,
        {
            let r = &self.elements[i];
            proof {
                assert(e0.take(i + 1) =~= e0.take(i as int).push(r.view()));
                crate::graph::lemma_filter_push(e0.take(i as int), r.view(), other_id(el.view().id));
            }
            if !str_eq(r.element.id.as_str(), el.id.as_str()) {
                let ghost before = element_rows_view(kept@);
                kept.push(ElementRow { element: r.element.duplicate(), owner: r.owner.duplicate() });
                assert(element_rows_view(kept@) =~= before.push(r.view()));
            }
            i += 1;
        }
        assert(e0.take(self.elements.len() as int) =~= e0);
        let ghost before = element_rows_view(kept@);
        kept.push(ElementRow { element: el, owner: RowScope::from_scope(scope) });
        assert(element_rows_view(kept@) =~= before.push((el.view(), row_scope_of(*scope))));
        self.elements = kept;
    }

    /// Indexes a call: a stored call with the same caller and callee is replaced, and the
    /// call goes last.
    pub fn index_call(&mut self, call: CodeCall)
        ensures
            final(self).calls() == old(self).calls().filter(other_call(call.view())).push(call.view()),
            final(self).elements() == old(self).elements(),
    {
        let ghost c0 = self.calls();
        let mut kept: Vec<CodeCall> = Vec::new();
        let mut i: usize = 0;
        while i < self.calls.len()
            invariant
                i <= self.calls.len(),
                c0 == self.calls(),
                c0 == old(self).calls(),
                self.elements() == old(self).elements(),
                call_views(kept@) == c0.take(i as int).filter(other_call(call.view())),
            decreases self.calls.len() - i,
        {
            let c = &self.calls[i];
            proof {
                assert(c0.take(i + 1) =~= c0.take(i as int).push(c.view()));
                crate::graph::lemma_filter_push(c0.take(i as int), c.view(), other_call(call.view()));
            }
            if !(str_eq(c.caller_id.as_str(), call.caller_id.as_str()) && str_eq(c.callee_id.as_str(), call.callee_id.as_str())) {
                let ghost before = call_views(kept@);
                kept.push(c.duplicate());
                assert(call_views(kept@) =~= before.push(c.view()));
            }
            i += 1;
        }
        assert(c0.take(self.calls.len() as int) =~= c0);
        let ghost before = call_views(kept@);
        kept.push(call);
        assert(call_views(kept@) =~= before.push(call.view()));
        self.calls = kept;
    }

    /// The elements visible to `scope` in `file_path` (any file when empty) whose name or
    /// type contains `query` (any when empty), in storage order.
    pub fn query_elements(&self, file_path: &str, query: &str, scope: &MemoryScope) -> (r: Vec<CodeElement>)
        ensures
            element_views(r@) == self.elements().filter(selected(file_path@, query@, *scope)).map_values(|x: (ElementModel, Owner)| x.0),
    {
        let ghost e0 = self.elements();
        let ghost p = selected(file_path@, query@, *scope);
        let fp = chars_of(file_path);
        let qc = chars_of(query);
        let mut out: Vec<CodeElement> = Vec::new();
        let mut i: usize = 0;
        while i < self.elements.len()
            invariant
                i <= self.elements.len(),
                e0 == self.elements(),
                p == selected(file_path@, query@, *scope),
                fp@ == file_path@,
                qc@ == query@,
                element_views(out@) == e0.take(i as int).filter(p).map_values(|x: (ElementModel, Owner)| x.0),
            decreases self.elements.len() - i,
        {
            let r = &self.elements[i];
            proof {
                assert(e0.take(i + 1) =~= e0.take(i as int).push(r.view()));
                crate::graph::lemma_filter_map_push(e0.take(i as int), r.view(), p, |x: (ElementModel, Owner)| x.0);
            }
            let hit = crate::scope::is_visible(scope, &r.owner)
                && (fp.len() == 0 || str_eq(r.element.file_path.as_str(), file_path))
                && (qc.len() == 0 || like_str(r.element.name.as_str(), query) || like_str(r.element.element_type.as_str(), query));
            if hit {
                let ghost before = element_views(out@);
                out.push(r.element.duplicate());
                assert(element_views(out@) =~= before.push(r.view().0));
            }
            i += 1;
        }
        assert(e0.take(self.elements.len() as int) =~= e0);
        out
    }

    /// The calls from `caller_id` (any when empty) to `callee_id` (any when empty), in
    /// storage order.
    pub fn query_calls(&self, caller_id: &str, callee_id: &str) -> (r: Vec<CodeCall>)
        ensures
            call_views(r@) == self.calls().filter(calls_selected(caller_id@, callee_id@)),
    {
        let ghost c0 = self.calls();
        let ghost p = calls_selected(caller_id@, callee_id@);
        let a = chars_of(caller_id);
        let b = chars_of(callee_id);
        let mut out: Vec<CodeCall> = Vec::new();
        let mut i: usize = 0;
        while i < self.calls.len()
            invariant
                i <= self.calls.len(),
                c0 == self.calls(),
                p == calls_selected(caller_id@, callee_id@),
                a@ == caller_id@,
                b@ == callee_id@,
                call_views(out@) == c0.take(i as int).filter(p),
            decreases self.calls.len() - i,
        {
            let c = &self.calls[i];
            proof {
                assert(c0.take(i + 1) =~= c0.take(i as int).push(c.view()));
                crate::graph::lemma_filter_push(c0.take(i as int), c.view(), p);
            }
            if (a.len() == 0 || str_eq(c.caller_id.as_str(), caller_id)) && (b.len() == 0 || str_eq(c.callee_id.as_str(), callee_id)) {
                let ghost before = call_views(out@);
                out.push(c.duplicate());
                assert(call_views(out@) =~= before.push(c.view()));
            }
            i += 1;
        }
        assert(c0.take(self.calls.len() as int) =~= c0);
        out
    }

    /// The impact of changing `target_symbol` (see `traversal::impact_spec`), over the
    /// identifiers of the elements in reach of `scope` and all stored calls.
    pub fn impact_analysis(&self, target_symbol: &str, scope: &MemoryScope) -> (r: Result<ImpactSummary, String>)
        requires
            self.elements().len() < u32::MAX - 1,
            self.calls().len() < u32::MAX,
        ensures
            ({
                let ids = self.elements().filter(in_reach(*scope)).map_values(|x: (ElementModel, Owner)| x.0.id);
                let calls = self.calls().map_values(|c: CallModel| (c.caller_id, c.callee_id));
                match r {
                    Ok(x) => impact_spec(ids, calls, target_symbol@) == Ok::<_, Seq<char>>(x.view()),
                    Err(m) => impact_spec(ids, calls, target_symbol@) == Err::<(Seq<Seq<char>>, int, int, int, Seq<char>), _>(m@),
                }
            }),
    {
        let ghost e0 = self.elements();
        let ghost p = in_reach(*scope);
        let mut ids: Vec<String> = Vec::new();
        let mut i: usize = 0;
        while i < self.elements.len()
            invariant
                i <= self.elements.len(),
                e0 == self.elements(),
                p == in_reach(*scope),
                string_views(ids@) == e0.take(i as int).filter(p).map_values(|x: (ElementModel, Owner)| x.0.id),
                ids.len() <= i,
            decreases self.elements.len() - i,
        {
            let r = &self.elements[i];
            proof {
                assert(e0.take(i + 1) =~= e0.take(i as int).push(r.view()));
                crate::graph::lemma_filter_map_push(e0.take(i as int), r.view(), p, |x: (ElementModel, Owner)| x.0.id);
            }
            if crate::scope::is_reachable(scope, &r.owner) {
                let ghost before = string_views(ids@);
                ids.push(r.element.id.clone());
                assert(string_views(ids@) =~= before.push(r.view().0.id));
            }
            i += 1;
        }
        assert(e0.take(self.elements.len() as int) =~= e0);
        let ghost c0 = self.calls();
        let mut calls: Vec<(String, String)> = Vec::new();
        let mut k: usize = 0;
        while k < self.calls.len()
            invariant
                k <= self.calls.len(),
                c0 == self.calls(),
                pair_strings(calls@) == c0.take(k as int).map_values(|c: CallModel| (c.caller_id, c.callee_id)),
                calls.len() == k,
            decreases self.calls.len() - k,
        {
            let c = &self.calls[k];
            let ghost before = pair_strings(calls@);
            calls.push((c.caller_id.clone(), c.callee_id.clone()));
            proof {
                assert(pair_strings(calls@) =~= before.push((c.view().caller_id, c.view().callee_id)));
                assert(c0.take(k + 1).map_values(|c: CallModel| (c.caller_id, c.callee_id))
                    =~= c0.take(k as int).map_values(|c: CallModel| (c.caller_id, c.callee_id)).push((c.view().caller_id, c.view().callee_id)));
            }
            k += 1;
        }
        assert(c0.take(self.calls.len() as int) =~= c0);
        impact_analysis(&ids, &calls, target_symbol)
    }
}

/// The elements of a tree include those of each of its first `k` children.
proof fn lemma_children_contain(path: Seq<char>, n: SyntaxNodeModel, k: int, parent: Option<Seq<char>>, j: int, m: int)
    requires
        0 <= j < k <= n.children.len(),
        0 <= m < tree_elements(path, n.children[j], parent).len(),
    ensures
        children_elements(path, n, k, parent).contains(tree_elements(path, n.children[j], parent)[m]),
    decreases k,
{
    let prev = children_elements(path, n, k - 1, parent);
    let last = tree_elements(path, n.children[k - 1], parent);
    assert(children_elements(path, n, k, parent) == prev + last);
    if j == k - 1 {
        assert((prev + last)[prev.len() + m] == last[m]);
    } else {
        lemma_children_contain(path, n, k - 1, parent, j, m);
        let i = choose|i: int| 0 <= i < prev.len() && prev[i] == tree_elements(path, n.children[j], parent)[m];
        assert((prev + last)[i] == prev[i]);
    }
}

proof fn lemma_python_kinds(nested: bool)
    ensures
        kind_rule("class_definition"@, nested) == Some(("Class"@, ':')),
        kind_rule("function_definition"@, true) == Some(("Method"@, ':')),
        "class_definition"@ != "impl_item"@,
        "function_definition"@ != "impl_item"@,
{
    reveal_strlit("class_definition");
    reveal_strlit("function_definition");
    reveal_strlit("impl_item");
    reveal_strlit("function_item");
    reveal_strlit("struct_item");
    reveal_strlit("enum_item");
    reveal_strlit("trait_item");
    assert("class_definition"@.len() == 16);
    assert("function_definition"@.len() == 19);
    assert("impl_item"@.len() == 9);
    assert("function_item"@.len() == 13);
    assert("struct_item"@.len() == 11);
    assert("enum_item"@.len() == 9);
    assert("trait_item"@.len() == 10);
    assert("class_definition"@ != "function_item"@);
    assert("class_definition"@ != "struct_item"@);
    assert("class_definition"@ != "enum_item"@);
    assert("class_definition"@ != "trait_item"@);
    assert("function_definition"@ != "function_item"@);
    assert("function_definition"@ != "struct_item"@);
    assert("function_definition"@ != "enum_item"@);
    assert("function_definition"@ != "trait_item"@);
    assert("function_definition"@ != "class_definition"@);
}

/// A Python class is indexed as a class: a `class_definition` node with a name gives,
/// first among its elements, an element of type "Class" named after it, whose signature
/// is its text up to the colon, under the enclosing element; and every named function
/// defined directly in its body is indexed as a "Method" whose parent is that class.
pub proof fn law_python_class_and_methods(path: Seq<char>, n: SyntaxNodeModel, parent: Option<Seq<char>>)
    requires
        n.kind == "class_definition"@,
        node_name(n) is Some,
    ensures
        ({
            let name = node_name(n).unwrap();
            let id = element_id(path, name, (n.start_row + 1) as nat);
            let es = tree_elements(path, n, parent);
            &&& es.len() > 0
            &&& es[0].element_type == "Class"@
            &&& es[0].name == name
            &&& es[0].id == id
            &&& es[0].signature == node_signature(n, ':')
            &&& es[0].parent_id == parent
            &&& forall|j: int| 0 <= j < n.children.len() && (#[trigger] n.children[j]).kind == "function_definition"@
                && node_name(n.children[j]) is Some ==> exists|e: ElementModel| #[trigger] es.contains(e)
                    && e.element_type == "Method"@ && e.name == node_name(n.children[j]).unwrap()
                    && e.parent_id == Some(id) && e.start_line == n.children[j].start_row + 1
        }),
{
    let name = node_name(n).unwrap();
    let id = element_id(path, name, (n.start_row + 1) as nat);
    let es = tree_elements(path, n, parent);
    lemma_python_kinds(parent is Some);
    let me = node_element(path, n, parent);
    assert(classify(n, parent is Some) == Some(("Class"@, name, node_signature(n, ':'))));
    assert(me is Some);
    let rest = children_elements(path, n, n.children.len() as int, Some(id));
    assert(es == seq![me.unwrap()] + rest);
    assert forall|j: int| 0 <= j < n.children.len() && (#[trigger] n.children[j]).kind == "function_definition"@
        && node_name(n.children[j]) is Some implies exists|e: ElementModel| #[trigger] es.contains(e)
            && e.element_type == "Method"@ && e.name == node_name(n.children[j]).unwrap()
            && e.parent_id == Some(id) && e.start_line == n.children[j].start_row + 1 by {
        let c = n.children[j];
        let ce = tree_elements(path, c, Some(id));
        let cm = node_element(path, c, Some(id));
        assert(cm is Some);
        assert(ce[0] == cm.unwrap());
        lemma_children_contain(path, n, n.children.len() as int, Some(id), j, 0);
        let i = choose|i: int| 0 <= i < rest.len() && rest[i] == ce[0];
        assert(es[i + 1] == ce[0]);
        assert(es.contains(ce[0]));
    }
}

proof fn lemma_kind_table(nested: bool, fun: Seq<char>)
    requires
        fun == (if nested { "Method"@ } else { "Function"@ }),
    ensures
        kind_rule("function_item"@, nested) == Some((fun, '{')),
        kind_rule("struct_item"@, nested) == Some(("Struct"@, '{')),
        kind_rule("enum_item"@, nested) == Some(("Enum"@, '{')),
        kind_rule("trait_item"@, nested) == Some(("Trait"@, '{')),
        kind_rule("class_definition"@, nested) == Some(("Class"@, ':')),
        kind_rule("function_definition"@, nested) == Some((fun, ':')),
        kind_rule("class_declaration"@, nested) == Some(("Class"@, '{')),
        kind_rule("function_declaration"@, nested) == Some((fun, '{')),
        kind_rule("method_definition"@, nested) == Some(("Method"@, '{')),
        kind_rule("interface_declaration"@, nested) == Some(("Interface"@, '{')),
        kind_rule("type_alias_declaration"@, nested) == Some(("TypeAlias"@, '=')),
        kind_rule("enum_declaration"@, nested) == Some(("Enum"@, '{')),
        "function_item"@ != "impl_item"@,
        "struct_item"@ != "impl_item"@,
        "enum_item"@ != "impl_item"@,
        "trait_item"@ != "impl_item"@,
        "class_definition"@ != "impl_item"@,
        "function_definition"@ != "impl_item"@,
        "class_declaration"@ != "impl_item"@,
        "function_declaration"@ != "impl_item"@,
        "method_definition"@ != "impl_item"@,
        "interface_declaration"@ != "impl_item"@,
        "type_alias_declaration"@ != "impl_item"@,
        "enum_declaration"@ != "impl_item"@,
{
    reveal_strlit("function_item");
    reveal_strlit("struct_item");
    reveal_strlit("enum_item");
    reveal_strlit("trait_item");
    reveal_strlit("class_definition");
    reveal_strlit("function_definition");
    reveal_strlit("class_declaration");
    reveal_strlit("function_declaration");
    reveal_strlit("method_definition");
    reveal_strlit("interface_declaration");
    reveal_strlit("type_alias_declaration");
    reveal_strlit("enum_declaration");
    reveal_strlit("impl_item");
    assert("function_item"@.len() == 13);
    assert("struct_item"@.len() == 11);
    assert("enum_item"@.len() == 9);
    assert("trait_item"@.len() == 10);
    assert("class_definition"@.len() == 16);
    assert("function_definition"@.len() == 19);
    assert("class_declaration"@.len() == 17);
    assert("function_declaration"@.len() == 20);
    assert("method_definition"@.len() == 17);
    assert("interface_declaration"@.len() == 21);
    assert("type_alias_declaration"@.len() == 22);
    assert("enum_declaration"@.len() == 16);
    assert("impl_item"@.len() == 9);
    assert("function_item"@[0] == 'f');
    assert("struct_item"@[0] == 's');
    assert("enum_item"@[0] == 'e');
    assert("trait_item"@[0] == 't');
    assert("class_definition"@[0] == 'c');
    assert("function_definition"@[0] == 'f');
    assert("class_declaration"@[0] == 'c');
    assert("function_declaration"@[0] == 'f');
    assert("method_definition"@[0] == 'm');
    assert("interface_declaration"@[0] == 'i');
    assert("type_alias_declaration"@[0] == 't');
    assert("enum_declaration"@[0] == 'e');
    assert("impl_item"@[0] == 'i');
    assert("function_item"@ != "struct_item"@);
    assert("function_item"@ != "enum_item"@);
    assert("function_item"@ != "trait_item"@);
    assert("function_item"@ != "class_definition"@);
    assert("function_item"@ != "function_definition"@);
    assert("function_item"@ != "class_declaration"@);
    assert("function_item"@ != "function_declaration"@);
    assert("function_item"@ != "method_definition"@);
    assert("function_item"@ != "interface_declaration"@);
    assert("function_item"@ != "type_alias_declaration"@);
    assert("function_item"@ != "enum_declaration"@);
    assert("function_item"@ != "impl_item"@);
    assert("struct_item"@ != "enum_item"@);
    assert("struct_item"@ != "trait_item"@);
    assert("struct_item"@ != "class_definition"@);
    assert("struct_item"@ != "function_definition"@);
    assert("struct_item"@ != "class_declaration"@);
    assert("struct_item"@ != "function_declaration"@);
    assert("struct_item"@ != "method_definition"@);
    assert("struct_item"@ != "interface_declaration"@);
    assert("struct_item"@ != "type_alias_declaration"@);
    assert("struct_item"@ != "enum_declaration"@);
    assert("struct_item"@ != "impl_item"@);
    assert("enum_item"@ != "trait_item"@);
    assert("enum_item"@ != "class_definition"@);
    assert("enum_item"@ != "function_definition"@);
    assert("enum_item"@ != "class_declaration"@);
    assert("enum_item"@ != "function_declaration"@);
    assert("enum_item"@ != "method_definition"@);
    assert("enum_item"@ != "interface_declaration"@);
    assert("enum_item"@ != "type_alias_declaration"@);
    assert("enum_item"@ != "enum_declaration"@);
    assert("enum_item"@[0] != "impl_item"@[0]);
    assert("enum_item"@ != "impl_item"@);
    assert("trait_item"@ != "class_definition"@);
    assert("trait_item"@ != "function_definition"@);
    assert("trait_item"@ != "class_declaration"@);
    assert("trait_item"@ != "function_declaration"@);
    assert("trait_item"@ != "method_definition"@);
    assert("trait_item"@ != "interface_declaration"@);
    assert("trait_item"@ != "type_alias_declaration"@);
    assert("trait_item"@ != "enum_declaration"@);
    assert("trait_item"@ != "impl_item"@);
    assert("class_definition"@ != "function_definition"@);
    assert("class_definition"@ != "class_declaration"@);
    assert("class_definition"@ != "function_declaration"@);
    assert("class_definition"@ != "method_definition"@);
    assert("class_definition"@ != "interface_declaration"@);
    assert("class_definition"@ != "type_alias_declaration"@);
    assert("class_definition"@[0] != "enum_declaration"@[0]);
    assert("class_definition"@ != "enum_declaration"@);
    assert("class_definition"@ != "impl_item"@);
    assert("function_definition"@ != "class_declaration"@);
    assert("function_definition"@ != "function_declaration"@);
    assert("function_definition"@ != "method_definition"@);
    assert("function_definition"@ != "interface_declaration"@);
    assert("function_definition"@ != "type_alias_declaration"@);
    assert("function_definition"@ != "enum_declaration"@);
    assert("function_definition"@ != "impl_item"@);
    assert("class_declaration"@ != "function_declaration"@);
    assert("class_declaration"@[0] != "method_definition"@[0]);
    assert("class_declaration"@ != "method_definition"@);
    assert("class_declaration"@ != "interface_declaration"@);
    assert("class_declaration"@ != "type_alias_declaration"@);
    assert("class_declaration"@ != "enum_declaration"@);
    assert("class_declaration"@ != "impl_item"@);
    assert("function_declaration"@ != "method_definition"@);
    assert("function_declaration"@ != "interface_declaration"@);
    assert("function_declaration"@ != "type_alias_declaration"@);
    assert("function_declaration"@ != "enum_declaration"@);
    assert("function_declaration"@ != "impl_item"@);
    assert("method_definition"@ != "interface_declaration"@);
    assert("method_definition"@ != "type_alias_declaration"@);
    assert("method_definition"@ != "enum_declaration"@);
    assert("method_definition"@ != "impl_item"@);
    assert("interface_declaration"@ != "type_alias_declaration"@);
    assert("interface_declaration"@ != "enum_declaration"@);
    assert("interface_declaration"@ != "impl_item"@);
    assert("type_alias_declaration"@ != "enum_declaration"@);
    assert("type_alias_declaration"@ != "impl_item"@);
    assert("enum_declaration"@ != "impl_item"@);
}

/// What each kind of named syntax node is indexed as, first among its tree's elements and
/// under the enclosing element: Rust functions, structs, enums and traits; Python classes
/// and functions; JavaScript/TypeScript classes, functions, methods, interfaces, type
/// aliases and enums.  A function nested in another element is a "Method", a top-level one
/// a "Function"; each signature is the node's text up to its body's opening character.
pub proof fn law_indexed_kinds(path: Seq<char>, n: SyntaxNodeModel, parent: Option<Seq<char>>)
    requires
        node_name(n) is Some,
    ensures
        ({
            let es = tree_elements(path, n, parent);
            let fun: Seq<char> = if parent is Some { "Method"@ } else { "Function"@ };
            &&& n.kind == "function_item"@ ==> es.len() > 0 && es[0].element_type == fun && es[0].name == node_name(n).unwrap()
                && es[0].signature == node_signature(n, '{') && es[0].parent_id == parent
                && es[0].id == element_id(path, node_name(n).unwrap(), (n.start_row + 1) as nat)
            &&& n.kind == "struct_item"@ ==> es.len() > 0 && es[0].element_type == "Struct"@ && es[0].name == node_name(n).unwrap()
                && es[0].signature == node_signature(n, '{') && es[0].parent_id == parent
                && es[0].id == element_id(path, node_name(n).unwrap(), (n.start_row + 1) as nat)
            &&& n.kind == "enum_item"@ ==> es.len() > 0 && es[0].element_type == "Enum"@ && es[0].name == node_name(n).unwrap()
                && es[0].signature == node_signature(n, '{') && es[0].parent_id == parent
                && es[0].id == element_id(path, node_name(n).unwrap(), (n.start_row + 1) as nat)
            &&& n.kind == "trait_item"@ ==> es.len() > 0 && es[0].element_type == "Trait"@ && es[0].name == node_name(n).unwrap()
                && es[0].signature == node_signature(n, '{') && es[0].parent_id == parent
                && es[0].id == element_id(path, node_name(n).unwrap(), (n.start_row + 1) as nat)
            &&& n.kind == "class_definition"@ ==> es.len() > 0 && es[0].element_type == "Class"@ && es[0].name == node_name(n).unwrap()
                && es[0].signature == node_signature(n, ':') && es[0].parent_id == parent
                && es[0].id == element_id(path, node_name(n).unwrap(), (n.start_row + 1) as nat)
            &&& n.kind == "function_definition"@ ==> es.len() > 0 && es[0].element_type == fun && es[0].name == node_name(n).unwrap()
                && es[0].signature == node_signature(n, ':') && es[0].parent_id == parent
                && es[0].id == element_id(path, node_name(n).unwrap(), (n.start_row + 1) as nat)
            &&& n.kind == "class_declaration"@ ==> es.len() > 0 && es[0].element_type == "Class"@ && es[0].name == node_name(n).unwrap()
                && es[0].signature == node_signature(n, '{') && es[0].parent_id == parent
                && es[0].id == element_id(path, node_name(n).unwrap(), (n.start_row + 1) as nat)
            &&& n.kind == "function_declaration"@ ==> es.len() > 0 && es[0].element_type == fun && es[0].name == node_name(n).unwrap()
                && es[0].signature == node_signature(n, '{') && es[0].parent_id == parent
                && es[0].id == element_id(path, node_name(n).unwrap(), (n.start_row + 1) as nat)
            &&& n.kind == "method_definition"@ ==> es.len() > 0 && es[0].element_type == "Method"@ && es[0].name == node_name(n).unwrap()
                && es[0].signature == node_signature(n, '{') && es[0].parent_id == parent
                && es[0].id == element_id(path, node_name(n).unwrap(), (n.start_row + 1) as nat)
            &&& n.kind == "interface_declaration"@ ==> es.len() > 0 && es[0].element_type == "Interface"@ && es[0].name == node_name(n).unwrap()
                && es[0].signature == node_signature(n, '{') && es[0].parent_id == parent
                && es[0].id == element_id(path, node_name(n).unwrap(), (n.start_row + 1) as nat)
            &&& n.kind == "type_alias_declaration"@ ==> es.len() > 0 && es[0].element_type == "TypeAlias"@ && es[0].name == node_name(n).unwrap()
                && es[0].signature == node_signature(n, '=') && es[0].parent_id == parent
                && es[0].id == element_id(path, node_name(n).unwrap(), (n.start_row + 1) as nat)
            &&& n.kind == "enum_declaration"@ ==> es.len() > 0 && es[0].element_type == "Enum"@ && es[0].name == node_name(n).unwrap()
                && es[0].signature == node_signature(n, '{') && es[0].parent_id == parent
                && es[0].id == element_id(path, node_name(n).unwrap(), (n.start_row + 1) as nat)
        }),
{
    let fun: Seq<char> = if parent is Some { "Method"@ } else { "Function"@ };
    lemma_kind_table(parent is Some, fun);
}

/// A node of any other kind than those indexed gives no element of its own: its tree's
/// elements are its children's, under the same enclosing element.
pub proof fn law_unindexed_kinds(path: Seq<char>, n: SyntaxNodeModel, parent: Option<Seq<char>>)
    requires
        n.kind != "function_item"@,
        n.kind != "struct_item"@,
        n.kind != "enum_item"@,
        n.kind != "trait_item"@,
        n.kind != "class_definition"@,
        n.kind != "function_definition"@,
        n.kind != "class_declaration"@,
        n.kind != "function_declaration"@,
        n.kind != "method_definition"@,
        n.kind != "interface_declaration"@,
        n.kind != "type_alias_declaration"@,
        n.kind != "enum_declaration"@,
        n.kind != "impl_item"@,
    ensures
        tree_elements(path, n, parent) == children_elements(path, n, n.children.len() as int, parent),
{
    assert(kind_rule(n.kind, parent is Some) is None);
    assert(tree_elements(path, n, parent) =~= children_elements(path, n, n.children.len() as int, parent));
}

/// A Rust impl block is indexed as an "ImplBlock" named by its signature, its text up to
/// the opening brace.
pub proof fn law_impl_block(path: Seq<char>, n: SyntaxNodeModel, parent: Option<Seq<char>>)
    requires
        n.kind == "impl_item"@,
    ensures
        ({
            let es = tree_elements(path, n, parent);
            &&& es.len() > 0
            &&& es[0].element_type == "ImplBlock"@
            &&& es[0].name == node_signature(n, '{')
            &&& es[0].signature == node_signature(n, '{')
            &&& es[0].parent_id == parent
        }),
{
}

} // verus!
