//! Episodic memory: reflections on past tasks and the performance record of tools.
use vstd::prelude::*;
use crate::graph::{opt_view, Owner, seq_lt, string_lt, lemma_filter_push, keys_unique, lemma_replace_keeps_keys_unique};
use crate::scope::{MemoryScope, RowScope, row_scope_of, visible, is_visible};
use crate::pattern::{like, anywhere, like_chars};
use crate::fusion::{first_index, lemma_first_index};
use crate::text::{chars_of, str_eq};

verus! {

/// A reflection logged after a task attempt.
#[derive(Debug, Clone)]
pub struct ReflectionItem {
    pub id: String,
    pub task_description: String,
    pub status: String,
    pub attempt_number: i64,
    pub steps_taken: String,
    pub error_encountered: Option<String>,
    pub root_cause: Option<String>,
    pub solution_applied: Option<String>,
    pub reflection: String,
    pub created_at: String,
}

pub struct ReflectionModel {
    pub id: Seq<char>,
    pub task_description: Seq<char>,
    pub status: Seq<char>,
    pub attempt_number: int,
    pub steps_taken: Seq<char>,
    pub error_encountered: Option<Seq<char>>,
    pub root_cause: Option<Seq<char>>,
    pub solution_applied: Option<Seq<char>>,
    pub reflection: Seq<char>,
    pub created_at: Seq<char>,
}

impl ReflectionItem {
    pub open spec fn view(&self) -> ReflectionModel {
        ReflectionModel {
            id: self.id@,
            task_description: self.task_description@,
            status: self.status@,
            attempt_number: self.attempt_number as int,
            steps_taken: self.steps_taken@,
            error_encountered: opt_view(self.error_encountered),
            root_cause: opt_view(self.root_cause),
            solution_applied: opt_view(self.solution_applied),
            reflection: self.reflection@,
            created_at: self.created_at@,
        }
    }
}


impl ReflectionItem {
    pub fn duplicate(&self) -> (r: Self)
        ensures
            r.view() == self.view(),
    {
        ReflectionItem {
            id: self.id.clone(),
            task_description: self.task_description.clone(),
            status: self.status.clone(),
            attempt_number: self.attempt_number,
            steps_taken: self.steps_taken.clone(),
            error_encountered: crate::scope::clone_opt(&self.error_encountered),
            root_cause: crate::scope::clone_opt(&self.root_cause),
            solution_applied: crate::scope::clone_opt(&self.solution_applied),
            reflection: self.reflection.clone(),
            created_at: self.created_at.clone(),
        }
    }
}

/// A stored reflection and its owner.
#[derive(Debug, Clone)]
pub struct ReflectionRow {
    pub item: ReflectionItem,
    pub owner: RowScope,
}

impl ReflectionRow {
    pub open spec fn view(&self) -> (ReflectionModel, Owner) {
        (self.item.view(), self.owner.view())
    }
}

pub open spec fn reflection_rows_view(s: Seq<ReflectionRow>) -> Seq<(ReflectionModel, Owner)> {
    s.map_values(|r: ReflectionRow| r.view())
}

pub open spec fn other_reflection(id: Seq<char>) -> spec_fn((ReflectionModel, Owner)) -> bool {
    |r: (ReflectionModel, Owner)| r.0.id != id
}

/// A tool's success and failure counts after recording a run of `success_count`
/// successes and `failure_count` failures under its key: a newer record replaces the
/// older one, so the counts are the recorded ones whether or not a record existed.
pub open spec fn tool_counts(existing: Option<(i64, i64)>, success_count: i64, failure_count: i64) -> (int, int) {
    (success_count as int, failure_count as int)
}

/// The counts stored for a tool after a record is written over `existing` (see
/// `tool_counts`).
pub fn record_tool_counts(existing: Option<(i64, i64)>, success_count: i64, failure_count: i64) -> (r: (i64, i64))
    ensures
        (r.0 as int, r.1 as int) == tool_counts(existing, success_count, failure_count),
{
    (success_count, failure_count)
}

pub open spec fn reflection_key() -> spec_fn((ReflectionModel, Owner)) -> Seq<char> {
    |r: (ReflectionModel, Owner)| r.0.id
}

/// Logging keeps reflection identifiers unique: if no two stored reflections share an
/// identifier before a reflection is logged, none do after.
pub proof fn law_reflection_ids_stay_unique(rows: Seq<(ReflectionModel, Owner)>, item: ReflectionModel, owner: Owner)
    requires
        keys_unique(rows, reflection_key()),
    ensures
        keys_unique(rows.filter(other_reflection(item.id)).push((item, owner)), reflection_key()),
{
    lemma_replace_keeps_keys_unique(rows, reflection_key(), other_reflection(item.id), (item, owner));
}

/// A reflection matches a query found in its task, its text or its root cause (`%` and
/// `_` act as wildcards, ASCII letters match either case); an empty query matches all.
pub open spec fn reflection_matches(r: ReflectionModel, query: Seq<char>) -> bool {
    ||| query.len() == 0
    ||| like(r.task_description, anywhere(query))
    ||| like(r.reflection, anywhere(query))
    ||| (r.root_cause matches Some(c) && like(c, anywhere(query)))
}

pub open spec fn reflection_found(query: Seq<char>, scope: MemoryScope) -> spec_fn((ReflectionModel, Owner)) -> bool {
    |r: (ReflectionModel, Owner)| visible(scope, r.1) && reflection_matches(r.0, query)
}

pub open spec fn older_than(t: Seq<char>) -> spec_fn(ReflectionModel) -> bool {
    |y: ReflectionModel| seq_lt(y.created_at, t)
}

/// Ordering reflections newest first by their creation stamp; equal stamps keep their order.
pub open spec fn newest_first(s: Seq<ReflectionModel>) -> Seq<ReflectionModel>
    decreases s.len(),
{
    if s.len() == 0 {
        Seq::empty()
    } else {
        let p = newest_first(s.drop_last());
        let i = first_index(p, older_than(s.last().created_at));
        if i < 0 { p.push(s.last()) } else { p.insert(i, s.last()) }
    }
}

/// The reflection store: reflections with the owner each was logged under, in storage
/// order.
pub struct EpisodicMemory {
    reflections: Vec<ReflectionRow>,
}

fn like_str(t: &str, q: &str) -> (b: bool)
    ensures
        b == like(t@, anywhere(q@)),
{
    let tv = chars_of(t);
    let mut p: Vec<char> = Vec::new();
    p.push('%');
    let qv = chars_of(q);
    let mut i: usize = 0;
    while i < qv.len()
        invariant
            i <= qv.len(),
            p@ == seq!['%'] + qv@.take(i as int),
        decreases qv.len() - i,
    {
        p.push(qv[i]);
        assert(p@ =~= seq!['%'] + qv@.take(i + 1));
        i += 1;
    }
    p.push('%');
    assert(p@ =~= anywhere(q@));
    like_chars(&tv, &p)
}

impl EpisodicMemory {
    pub closed spec fn reflections(&self) -> Seq<(ReflectionModel, Owner)> {
        reflection_rows_view(self.reflections@)
    }

    /// An empty store.
    pub fn new() -> (r: Self)
        ensures
            r.reflections() == Seq::<(ReflectionModel, Owner)>::empty(),
    {
        let r = EpisodicMemory { reflections: Vec::new() };
        assert(r.reflections() =~= Seq::<(ReflectionModel, Owner)>::empty());
        r
    }

    /// A store holding the given rows, in order.
    pub fn from_rows(rows: Vec<ReflectionRow>) -> (r: Self)
        ensures
            r.reflections() == reflection_rows_view(rows@),
    {
        EpisodicMemory { reflections: rows }
    }

    /// The stored rows, in storage order.
    pub fn reflection_rows(&self) -> (r: &Vec<ReflectionRow>)
        ensures
            reflection_rows_view(r@) == self.reflections(),
    {
        &self.reflections
    }

    /// Logs a reflection under the owner of `scope`: a stored reflection with the same
    /// identifier is replaced, and the new one goes last.
    pub fn log_reflection(&mut self, item: ReflectionItem, scope: &MemoryScope)
        ensures
            final(self).reflections() == old(self).reflections().filter(other_reflection(item.view().id)).push((item.view(), row_scope_of(*scope))),
    {
        let ghost e0 = self.reflections();
        let mut kept: Vec<ReflectionRow> = Vec::new();
        let mut i: usize = 0;
        while i < self.reflections.len()
            invariant
                i <= self.reflections.len(),
                e0 == self.reflections(),
                e0 == old(self).reflections(),
                reflection_rows_view(kept@) == e0.take(i as int).filter(other_reflection(item.view().id)),
            decreases self.reflections.len() - i,
        {
            let r = &self.reflections[i];
            proof {
                assert(e0.take(i + 1) =~= e0.take(i as int).push(r.view()));
                lemma_filter_push(e0.take(i as int), r.view(), other_reflection(item.view().id));
            }
            if !str_eq(r.item.id.as_str(), item.id.as_str()) {
                let ghost before = reflection_rows_view(kept@);
                kept.push(ReflectionRow { item: r.item.duplicate(), owner: r.owner.duplicate() });
                assert(reflection_rows_view(kept@) =~= before.push(r.view()));
            }
            i += 1;
        }
        assert(e0.take(self.reflections.len() as int) =~= e0);
        let ghost before = reflection_rows_view(kept@);
        kept.push(ReflectionRow { item, owner: RowScope::from_scope(scope) });
        assert(reflection_rows_view(kept@) =~= before.push((item.view(), row_scope_of(*scope))));
        self.reflections = kept;
    }

    /// The reflections visible to `scope` that match `query` (see `reflection_matches`),
    /// newest first.
    pub fn get_reflections(&self, query: &str, scope: &MemoryScope) -> (r: Vec<ReflectionItem>)
        ensures
            r@.map_values(|x: ReflectionItem| x.view())
                == newest_first(self.reflections().filter(reflection_found(query@, *scope)).map_values(|x: (ReflectionModel, Owner)| x.0)),
    {
        let ghost e0 = self.reflections();
        let ghost p = reflection_found(query@, *scope);
        let ghost f = e0.filter(p).map_values(|x: (ReflectionModel, Owner)| x.0);
        let qc = chars_of(query);
        let mut found: Vec<ReflectionItem> = Vec::new();
        let mut i: usize = 0;
        while i < self.reflections.len()
            invariant
                i <= self.reflections.len(),
                e0 == self.reflections(),
                p == reflection_found(query@, *scope),
                qc@ == query@,
                found@.map_values(|x: ReflectionItem| x.view()) == e0.take(i as int).filter(p).map_values(|x: (ReflectionModel, Owner)| x.0),
            decreases self.reflections.len() - i,
        {
            let r = &self.reflections[i];
            proof {
                assert(e0.take(i + 1) =~= e0.take(i as int).push(r.view()));
                crate::graph::lemma_filter_map_push(e0.take(i as int), r.view(), p, |x: (ReflectionModel, Owner)| x.0);
            }
            let rc = match &r.item.root_cause {
                Some(c) => like_str(c.as_str(), query),
                None => false,
            };
            let hit = is_visible(scope, &r.owner)
                && (qc.len() == 0 || like_str(r.item.task_description.as_str(), query) || like_str(r.item.reflection.as_str(), query) || rc);
            if hit {
                let ghost before = found@.map_values(|x: ReflectionItem| x.view());
                found.push(r.item.duplicate());
                assert(found@.map_values(|x: ReflectionItem| x.view()) =~= before.push(r.view().0));
            }
            i += 1;
        }
        assert(e0.take(self.reflections.len() as int) =~= e0);
        let mut out: Vec<ReflectionItem> = Vec::new();
        let mut k: usize = 0;
        assert(out@.map_values(|x: ReflectionItem| x.view()) =~= newest_first(f.take(0)));
        while k < found.len()
            invariant
                k <= found.len(),
                f == found@.map_values(|x: ReflectionItem| x.view()),
                out@.map_values(|x: ReflectionItem| x.view()) == newest_first(f.take(k as int)),
            decreases found.len() - k,
        {
            let x = &found[k];
            proof {
                assert(f.take(k + 1).drop_last() =~= f.take(k as int));
                assert(f.take(k + 1).last() == x.view());
            }
            let ghost q = out@.map_values(|y: ReflectionItem| y.view());
            let mut j: usize = 0;
            let mut stop = false;
            while !stop && j < out.len()
                invariant
                    j <= out.len(),
                    q == out@.map_values(|y: ReflectionItem| y.view()),
                    forall|t: int| 0 <= t < j ==> !older_than(x.view().created_at)(#[trigger] q[t]),
                    stop ==> j < out.len() && older_than(x.view().created_at)(q[j as int]),
                decreases out.len() - j + (if stop { 0int } else { 1int }),
            {
                assert(q[j as int] == out@[j as int].view());
                if string_lt(out[j].created_at.as_str(), x.created_at.as_str()) {
                    stop = true;
                } else {
                    j += 1;
                }
            }
            proof {
                lemma_first_index(q, older_than(x.view().created_at), j as int);
            }
            if stop {
                out.insert(j, x.duplicate());
                assert(out@.map_values(|y: ReflectionItem| y.view()) =~= q.insert(j as int, x.view()));
            } else {
                out.push(x.duplicate());
                assert(out@.map_values(|y: ReflectionItem| y.view()) =~= q.push(x.view()));
            }
            k += 1;
        }
        assert(f.take(found.len() as int) =~= f);
        out
    }
}

/// Ordering newest first keeps exactly the reflections it was given.
proof fn lemma_newest_first_members(s: Seq<ReflectionModel>)
    ensures
        forall|y: ReflectionModel| #[trigger] newest_first(s).contains(y) <==> s.contains(y),
    decreases s.len(),
{
    if s.len() > 0 {
        let d = s.drop_last();
        let x = s.last();
        lemma_newest_first_members(d);
        let p = newest_first(d);
        let i = first_index(p, older_than(x.created_at));
        crate::fusion::lemma_first_index_props(p, older_than(x.created_at));
        let r = newest_first(s);
        assert(r == if i < 0 { p.push(x) } else { p.insert(i, x) });
        assert forall|y: ReflectionModel| #[trigger] r.contains(y) <==> p.contains(y) || y == x by {
            if r.contains(y) {
                let k = choose|k: int| 0 <= k < r.len() && r[k] == y;
                if i < 0 {
                    if k < p.len() { assert(p[k] == y); }
                } else if k < i {
                    assert(p[k] == y);
                } else if k > i {
                    assert(p[k - 1] == y);
                }
            }
            if p.contains(y) {
                let k = choose|k: int| 0 <= k < p.len() && p[k] == y;
                if i < 0 || k < i {
                    assert(r[k] == y);
                } else {
                    assert(r[k + 1] == y);
                }
            }
            if y == x {
                if i < 0 {
                    assert(r[p.len() as int] == x);
                } else {
                    assert(r[i] == x);
                }
            }
        }
        assert forall|y: ReflectionModel| #[trigger] r.contains(y) <==> s.contains(y) by {
            if d.contains(y) {
                let k = choose|k: int| 0 <= k < d.len() && d[k] == y;
                assert(s[k] == y);
            }
            if s.contains(y) {
                let k = choose|k: int| 0 <= k < s.len() && s[k] == y;
                if k < d.len() {
                    assert(d[k] == y);
                }
            }
            if y == x {
                assert(s[s.len() - 1] == x);
            }
        }
    }
}

/// Reflection search returns exactly the stored reflections visible to the scope whose
/// task description, reflection text or root cause contains the query (as `LIKE '%q%'`,
/// with `%` and `_` as wildcards and ASCII letters in either case); an empty query finds
/// every visible reflection.
pub proof fn law_reflection_search(rows: Seq<(ReflectionModel, Owner)>, query: Seq<char>, scope: MemoryScope, r: ReflectionModel)
    ensures
        newest_first(rows.filter(reflection_found(query, scope)).map_values(|x: (ReflectionModel, Owner)| x.0)).contains(r)
        <==> exists|i: int| 0 <= i < rows.len() && (#[trigger] rows[i]).0 == r && visible(scope, rows[i].1) && {
            ||| query.len() == 0
            ||| like(r.task_description, anywhere(query))
            ||| like(r.reflection, anywhere(query))
            ||| (r.root_cause matches Some(c) && like(c, anywhere(query)))
        },
{
    let p = reflection_found(query, scope);
    let fs = rows.filter(p);
    let ms = fs.map_values(|x: (ReflectionModel, Owner)| x.0);
    lemma_newest_first_members(ms);
    crate::graph::lemma_filter_members(rows, p);
    if ms.contains(r) {
        let k = choose|k: int| 0 <= k < ms.len() && ms[k] == r;
        assert(rows.contains(fs[k]) && p(fs[k]));
        let i = choose|i: int| 0 <= i < rows.len() && rows[i] == fs[k];
        assert(rows[i].0 == r);
    }
    if exists|i: int| 0 <= i < rows.len() && (#[trigger] rows[i]).0 == r && visible(scope, rows[i].1) && {
            ||| query.len() == 0
            ||| like(r.task_description, anywhere(query))
            ||| like(r.reflection, anywhere(query))
            ||| (r.root_cause matches Some(c) && like(c, anywhere(query)))
        } {
        let i = choose|i: int| 0 <= i < rows.len() && (#[trigger] rows[i]).0 == r && visible(scope, rows[i].1) && {
            ||| query.len() == 0
            ||| like(r.task_description, anywhere(query))
            ||| like(r.reflection, anywhere(query))
            ||| (r.root_cause matches Some(c) && like(c, anywhere(query)))
        };
        assert(p(rows[i]));
        assert(fs.contains(rows[i]));
        let k = choose|k: int| 0 <= k < fs.len() && fs[k] == rows[i];
        assert(ms[k] == r);
    }
}

pub open spec fn newest_ordered(s: Seq<ReflectionModel>) -> bool {
    forall|a: int, b: int| 0 <= a < b < s.len() ==> crate::graph::seq_le(s[b].created_at, s[a].created_at)
}

proof fn lemma_newest_first_ordered(s: Seq<ReflectionModel>)
    ensures
        newest_ordered(newest_first(s)),
    decreases s.len(),
{
    if s.len() > 0 {
        let d = s.drop_last();
        let x = s.last();
        lemma_newest_first_ordered(d);
        let p = newest_first(d);
        let i = first_index(p, older_than(x.created_at));
        crate::fusion::lemma_first_index_props(p, older_than(x.created_at));
        let r = newest_first(s);
        assert(r == if i < 0 { p.push(x) } else { p.insert(i, x) });
        assert forall|k: int| 0 <= k < p.len() && (i < 0 || k < i) implies crate::graph::seq_le(x.created_at, p[k].created_at) by {
            assert(!older_than(x.created_at)(p[k]));
            crate::graph::lemma_seq_lt_total(p[k].created_at, x.created_at);
        }
        assert forall|a: int, b: int| 0 <= a < b < r.len() implies crate::graph::seq_le(r[b].created_at, r[a].created_at) by {
            if i < 0 {
                if b < p.len() {
                    assert(r[a] == p[a] && r[b] == p[b]);
                } else {
                    assert(r[b] == x && r[a] == p[a]);
                }
            } else if b < i {
                assert(r[a] == p[a] && r[b] == p[b]);
            } else if b == i {
                assert(r[b] == x && r[a] == p[a]);
            } else if a < i {
                assert(r[a] == p[a] && r[b] == p[b - 1]);
            } else if a == i {
                assert(r[a] == x && r[b] == p[b - 1]);
                assert(older_than(x.created_at)(p[i]));
                if b - 1 > i {
                    crate::graph::lemma_seq_le_trans(p[b - 1].created_at, p[i].created_at, x.created_at);
                }
            } else {
                assert(r[a] == p[a - 1] && r[b] == p[b - 1]);
            }
        }
    }
}

/// Reflection search lists newest first: no reflection comes before one created later.
pub proof fn law_reflections_newest_first(rows: Seq<(ReflectionModel, Owner)>, query: Seq<char>, scope: MemoryScope)
    ensures
        ({
            let r = newest_first(rows.filter(reflection_found(query, scope)).map_values(|x: (ReflectionModel, Owner)| x.0));
            forall|a: int, b: int| 0 <= a < b < r.len() ==> crate::graph::seq_le(r[b].created_at, r[a].created_at)
        }),
{
    lemma_newest_first_ordered(rows.filter(reflection_found(query, scope)).map_values(|x: (ReflectionModel, Owner)| x.0));
}

} // verus!
