//! Memory scopes: the (user, session, agent) triple that partitions every layer.
use vstd::prelude::*;

verus! {

/// The owner of a memory record.  `None` stands for "any", and is stored as `*`.
#[derive(Debug, Clone, Default)]
pub struct MemoryScope {
    pub user_id: Option<String>,
    pub session_id: Option<String>,
    pub agent_id: Option<String>,
}

/// The wildcard written for an absent scope component.
pub open spec fn wildcard() -> Seq<char> {
    seq!['*']
}

/// The stored form of one scope component: its text, or `*` when absent.
pub open spec fn part(o: Option<String>) -> Seq<char> {
    match o {
        Some(s) => s@,
        None => wildcard(),
    }
}

/// The scope component that reads back from a stored component: `*` means absent.
pub open spec fn unpart(s: Seq<char>) -> Option<Seq<char>> {
    if s == wildcard() {
        None
    } else {
        Some(s)
    }
}

/// The view of an optional string.
pub open spec fn opt_view(o: Option<String>) -> Option<Seq<char>> {
    match o {
        Some(s) => Some(s@),
        None => None,
    }
}

/// The `*` string.
pub fn wildcard_string() -> (r: String)
    ensures
        r@ == wildcard(),
{
    let mut r = String::new();
    r.push('*');
    r
}

/// The stored form of an optional scope component (`unwrap_or("*")`).
pub fn part_string(o: &Option<String>) -> (r: String)
    ensures
        r@ == part(*o),
{
    match o {
        Some(s) => s.clone(),
        None => wildcard_string(),
    }
}

/// A copy of an optional string.
pub fn clone_opt(o: &Option<String>) -> (r: Option<String>)
    ensures
        r == *o,
{
    match o {
        Some(s) => Some(s.clone()),
        None => None,
    }
}

impl MemoryScope {
    /// A scope from its three components.
    pub fn new(user_id: Option<String>, session_id: Option<String>, agent_id: Option<String>) -> (r: Self)
        ensures
            r.user_id == user_id,
            r.session_id == session_id,
            r.agent_id == agent_id,
    {
        MemoryScope { user_id, session_id, agent_id }
    }

    /// The scope that matches every owner.
    pub fn any() -> (r: Self)
        ensures
            r.user_id is None,
            r.session_id is None,
            r.agent_id is None,
    {
        MemoryScope { user_id: None, session_id: None, agent_id: None }
    }

    /// A field-by-field copy.
    pub fn duplicate(&self) -> (r: Self)
        ensures
            r == *self,
    {
        MemoryScope {
            user_id: clone_opt(&self.user_id),
            session_id: clone_opt(&self.session_id),
            agent_id: clone_opt(&self.agent_id),
        }
    }
}

/// The stored owner of a record: each component as text, `*` for "any".
#[derive(Debug, Clone)]
pub struct RowScope {
    pub user_id: String,
    pub session_id: String,
    pub agent_id: String,
}

/// The owner under which a write in `scope` is stored.
pub open spec fn row_scope_of(scope: MemoryScope) -> (Seq<char>, Seq<char>, Seq<char>) {
    (part(scope.user_id), part(scope.session_id), part(scope.agent_id))
}

impl RowScope {
    /// The stored owner components.
    pub open spec fn view(&self) -> (Seq<char>, Seq<char>, Seq<char>) {
        (self.user_id@, self.session_id@, self.agent_id@)
    }

    /// The owner under which a write in `scope` is stored.
    pub fn from_scope(scope: &MemoryScope) -> (r: Self)
        ensures
            r.view() == row_scope_of(*scope),
    {
        RowScope {
            user_id: part_string(&scope.user_id),
            session_id: part_string(&scope.session_id),
            agent_id: part_string(&scope.agent_id),
        }
    }

    /// A field-by-field copy.
    pub fn duplicate(&self) -> (r: Self)
        ensures
            r.view() == self.view(),
    {
        RowScope {
            user_id: self.user_id.clone(),
            session_id: self.session_id.clone(),
            agent_id: self.agent_id.clone(),
        }
    }
}

/// Reads filter by scope: a missing component matches every row, a given
/// component matches rows stored under it or under `*`.
pub open spec fn component_visible(filter: Option<String>, stored: Seq<char>) -> bool {
    match filter {
        None => true,
        Some(f) => stored == f@ || stored == wildcard(),
    }
}

/// A stored owner is visible to a reading scope when all three components are.
pub open spec fn visible(scope: MemoryScope, row: (Seq<char>, Seq<char>, Seq<char>)) -> bool {
    &&& component_visible(scope.user_id, row.0)
    &&& component_visible(scope.session_id, row.1)
    &&& component_visible(scope.agent_id, row.2)
}

/// Some operations match rows by the stored form of the scope (absent means `*`):
/// a row is in reach when each component equals that form or is `*`.
pub open spec fn component_reachable(filter: Option<String>, stored: Seq<char>) -> bool {
    stored == part(filter) || stored == wildcard()
}

/// Reachability of a whole stored owner, component by component.
pub open spec fn reachable(scope: MemoryScope, row: (Seq<char>, Seq<char>, Seq<char>)) -> bool {
    &&& component_reachable(scope.user_id, row.0)
    &&& component_reachable(scope.session_id, row.1)
    &&& component_reachable(scope.agent_id, row.2)
}

/// Scopes isolate memories: whatever a scope writes is visible and in reach when it
/// reads in the same scope, and a row written by one user (not `*`) is invisible to a
/// reader that names another user.
pub proof fn law_scope_isolation(writer: MemoryScope, reader: MemoryScope)
    ensures
        visible(writer, row_scope_of(writer)),
        reachable(writer, row_scope_of(writer)),
        (writer.user_id matches Some(w) && reader.user_id matches Some(u) && w@ != u@ && w@ != wildcard())
            ==> !visible(reader, row_scope_of(writer)),
{
}

/// Whether `c` equals the wildcard `*`.
pub fn is_wildcard(s: &String) -> (b: bool)
    ensures
        b == (s@ == wildcard()),
{
    let w = wildcard_string();
    crate::text::str_eq(s.as_str(), w.as_str())
}

fn component_visible_exec(filter: &Option<String>, stored: &String) -> (b: bool)
    ensures
        b == component_visible(*filter, stored@),
{
    match filter {
        None => true,
        Some(f) => crate::text::str_eq(stored.as_str(), f.as_str()) || is_wildcard(stored),
    }
}

fn component_reachable_exec(filter: &Option<String>, stored: &String) -> (b: bool)
    ensures
        b == component_reachable(*filter, stored@),
{
    let p = part_string(filter);
    crate::text::str_eq(stored.as_str(), p.as_str()) || is_wildcard(stored)
}

/// Whether a stored owner is visible to a reading scope.
pub fn is_visible(scope: &MemoryScope, row: &RowScope) -> (b: bool)
    ensures
        b == visible(*scope, row.view()),
{
    component_visible_exec(&scope.user_id, &row.user_id)
        && component_visible_exec(&scope.session_id, &row.session_id)
        && component_visible_exec(&scope.agent_id, &row.agent_id)
}

/// Whether a stored owner is in reach of a scope's stored form.
pub fn is_reachable(scope: &MemoryScope, row: &RowScope) -> (b: bool)
    ensures
        b == reachable(*scope, row.view()),
{
    component_reachable_exec(&scope.user_id, &row.user_id)
        && component_reachable_exec(&scope.session_id, &row.session_id)
        && component_reachable_exec(&scope.agent_id, &row.agent_id)
}

/// Whether a stored owner is exactly the stored form of a scope.
pub fn is_exact(scope: &MemoryScope, row: &RowScope) -> (b: bool)
    ensures
        b == (row.view() == row_scope_of(*scope)),
{
    let p = RowScope::from_scope(scope);
    crate::text::str_eq(row.user_id.as_str(), p.user_id.as_str())
        && crate::text::str_eq(row.session_id.as_str(), p.session_id.as_str())
        && crate::text::str_eq(row.agent_id.as_str(), p.agent_id.as_str())
}

} // verus!
