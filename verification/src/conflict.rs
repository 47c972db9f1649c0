//! Conflict resolution: exclusive relations with several active targets, and near-duplicate
//! semantic facts.  A conflict is resolved by a strategy ("confidence", "importance", or
//! recency by default) that picks a winner; the loser is closed and marked as superseded.
use vstd::prelude::*;
use crate::graph::{GraphMemory, EdgeRow, EdgeModel, edge_views, seq_lt, seq_le, string_lt, string_le, supersede, same_version, superseded, active, lemma_filter_push, lemma_filter_map_push, utc_timestamp};
use crate::traversal::traversable;
use crate::scope::{MemoryScope, is_reachable};
use crate::recall::string_views;
use crate::text::{owned, str_eq};

verus! {

/// A fresh random identifier: `uuid::Uuid::new_v4` in its hyphenated form, which is
/// always 36 characters long.
#[verifier::external_body]
pub(crate) fn fresh_id() -> (r: String)
    ensures
        r@.len() == 36,
{
    uuid::Uuid::new_v4().to_string()
}

/// An exclusive relation with two different active targets.
#[derive(Debug, Clone)]
pub struct GraphConflict {
    pub from_name: String,
    pub relation_type: String,
    pub existing_target: String,
    pub new_target: String,
    pub existing_edge_key: String,
    pub new_edge_key: String,
}

pub struct GraphConflictModel {
    pub from_name: Seq<char>,
    pub relation_type: Seq<char>,
    pub existing_target: Seq<char>,
    pub new_target: Seq<char>,
    pub existing_edge_key: Seq<char>,
    pub new_edge_key: Seq<char>,
}

impl GraphConflict {
    pub open spec fn view(&self) -> GraphConflictModel {
        GraphConflictModel {
            from_name: self.from_name@,
            relation_type: self.relation_type@,
            existing_target: self.existing_target@,
            new_target: self.new_target@,
            existing_edge_key: self.existing_edge_key@,
            new_edge_key: self.new_edge_key@,
        }
    }
}

/// A graph conflict under its identifier.
#[derive(Debug, Clone)]
pub struct GraphConflictPair {
    pub id: String,
    pub details: GraphConflict,
}

/// How a conflict was (or, in a dry run, would be) resolved.
#[derive(Debug, Clone)]
pub struct ResolutionAction {
    pub conflict_id: String,
    pub resolved: bool,
    pub action_taken: String,
    pub winner_id: String,
    pub loser_id: String,
}

pub struct ActionModel {
    pub resolved: bool,
    pub action_taken: Seq<char>,
    pub winner_id: Seq<char>,
    pub loser_id: Seq<char>,
}

impl ResolutionAction {
    pub open spec fn view(&self) -> ActionModel {
        ActionModel { resolved: self.resolved, action_taken: self.action_taken@, winner_id: self.winner_id@, loser_id: self.loser_id@ }
    }
}

/// The graph conflicts found and the resolutions, in the same order and under the same
/// identifiers.
#[derive(Debug, Clone)]
pub struct GraphConflictReport {
    pub conflicts: Vec<GraphConflictPair>,
    pub resolutions_applied: Vec<ResolutionAction>,
}

/// The relation versions checked for conflicts: traversable by `scope` and of an
/// exclusive type.
pub open spec fn candidate(scope: MemoryScope, excl: Seq<Seq<char>>) -> spec_fn(EdgeModel) -> bool {
    |e: EdgeModel| traversable(scope)(e) && excl.contains(e.relation_type)
}

pub open spec fn group_key(e: EdgeModel) -> (Seq<char>, Seq<char>) {
    (e.from, e.relation_type)
}

/// The (source, type) groups, in order of first appearance.
pub open spec fn group_keys(es: Seq<EdgeModel>) -> Seq<(Seq<char>, Seq<char>)>
    decreases es.len(),
{
    if es.len() == 0 {
        Seq::empty()
    } else {
        let p = group_keys(es.drop_last());
        if p.contains(group_key(es.last())) { p } else { p.push(group_key(es.last())) }
    }
}

pub open spec fn in_group(k: (Seq<char>, Seq<char>)) -> spec_fn(EdgeModel) -> bool {
    |e: EdgeModel| group_key(e) == k
}

pub open spec fn differs_from(a: EdgeModel) -> spec_fn(EdgeModel) -> bool {
    |e: EdgeModel| e.to != a.to
}

pub open spec fn paired_with(a: EdgeModel) -> spec_fn(EdgeModel) -> (EdgeModel, EdgeModel) {
    |e: EdgeModel| (a, e)
}

/// The conflicting pairs of a group: each version with every later one of a different
/// target.
pub open spec fn group_pairs(g: Seq<EdgeModel>) -> Seq<(EdgeModel, EdgeModel)>
    decreases g.len(),
{
    if g.len() == 0 {
        Seq::empty()
    } else {
        g.drop_first().filter(differs_from(g[0])).map_values(paired_with(g[0])) + group_pairs(g.drop_first())
    }
}

pub open spec fn pairs_over(es: Seq<EdgeModel>, keys: Seq<(Seq<char>, Seq<char>)>) -> Seq<(EdgeModel, EdgeModel)>
    decreases keys.len(),
{
    if keys.len() == 0 {
        Seq::empty()
    } else {
        pairs_over(es, keys.drop_last()) + group_pairs(es.filter(in_group(keys.last())))
    }
}

/// The conflicting pairs of the graph, group by group.
pub open spec fn conflict_pairs(edges: Seq<EdgeModel>, scope: MemoryScope, excl: Seq<Seq<char>>) -> Seq<(EdgeModel, EdgeModel)> {
    let es = edges.filter(candidate(scope, excl));
    pairs_over(es, group_keys(es))
}

/// Winner and loser by recency: the later start wins; on equal starts the second.
pub open spec fn recency_pick<A>(a: A, b: A, a_from: Seq<char>, b_from: Seq<char>) -> (A, A) {
    if seq_lt(b_from, a_from) { (a, b) } else { (b, a) }
}

/// Winner and loser of a graph conflict under `strategy`: by confidence first for
/// "confidence", then by recency.
pub open spec fn pick(a: EdgeModel, b: EdgeModel, strategy: Seq<char>) -> (EdgeModel, EdgeModel) {
    if strategy == "confidence"@ && a.confidence_ppm != b.confidence_ppm {
        if a.confidence_ppm > b.confidence_ppm { (a, b) } else { (b, a) }
    } else {
        recency_pick(a, b, a.valid_from, b.valid_from)
    }
}

pub open spec fn edge_key(e: EdgeModel) -> Seq<char> {
    e.from + "-"@ + e.to + "-"@ + e.relation_type
}

/// The conflict record: the earlier-starting version is the existing one.
pub open spec fn conflict_of(a: EdgeModel, b: EdgeModel) -> GraphConflictModel {
    let (x, y) = if seq_le(a.valid_from, b.valid_from) { (a, b) } else { (b, a) };
    GraphConflictModel {
        from_name: a.from,
        relation_type: a.relation_type,
        existing_target: x.to,
        new_target: y.to,
        existing_edge_key: edge_key(x),
        new_edge_key: edge_key(y),
    }
}

pub open spec fn action_text(a: EdgeModel, w: EdgeModel, l: EdgeModel) -> Seq<char> {
    "Resolved graph conflict for "@ + a.from + "("@ + a.relation_type + "): "@ + w.to + " (valid: "@ + w.valid_from
        + ") wins over "@ + l.to + " (valid: "@ + l.valid_from + ")"@
}

pub open spec fn action_of(a: EdgeModel, b: EdgeModel, strategy: Seq<char>, dry_run: bool) -> ActionModel {
    let (w, l) = pick(a, b, strategy);
    ActionModel { resolved: !dry_run, action_taken: action_text(a, w, l), winner_id: edge_key(w), loser_id: edge_key(l) }
}

/// The graph after resolving the pairs in order: each loser superseded by its winner's
/// target at `now`.
pub open spec fn apply_all(edges: Seq<EdgeModel>, ps: Seq<(EdgeModel, EdgeModel)>, strategy: Seq<char>, now: Seq<char>) -> Seq<EdgeModel>
    decreases ps.len(),
{
    if ps.len() == 0 {
        edges
    } else {
        let (w, l) = pick(ps.last().0, ps.last().1, strategy);
        supersede(apply_all(edges, ps.drop_last(), strategy, now), l, w.to, now)
    }
}


/// The loser of a pair is one of its two versions.
proof fn lemma_pick_members(a: EdgeModel, b: EdgeModel, strategy: Seq<char>)
    ensures
        pick(a, b, strategy).1 == a || pick(a, b, strategy).1 == b,
{
}

/// Resolving keeps every version's identity and position; a version that was inactive
/// stays inactive, and one that matches the loser of any resolved pair ends inactive.
proof fn lemma_apply_all_shape(edges: Seq<EdgeModel>, ps: Seq<(EdgeModel, EdgeModel)>, strategy: Seq<char>, now: Seq<char>)
    ensures
        apply_all(edges, ps, strategy, now).len() == edges.len(),
        forall|i: int| 0 <= i < edges.len() ==> {
            let f = #[trigger] apply_all(edges, ps, strategy, now)[i];
            &&& f.from == edges[i].from
            &&& f.to == edges[i].to
            &&& f.relation_type == edges[i].relation_type
            &&& f.owner == edges[i].owner
            &&& f.valid_from == edges[i].valid_from
            &&& (active(f) ==> active(edges[i]))
            &&& (active(f) ==> forall|k: int| 0 <= k < ps.len() ==> !same_version(edges[i], #[trigger] pick(ps[k].0, ps[k].1, strategy).1))
        },
    decreases ps.len(),
{
    if ps.len() > 0 {
        let prev = apply_all(edges, ps.drop_last(), strategy, now);
        lemma_apply_all_shape(edges, ps.drop_last(), strategy, now);
        let (w, l) = pick(ps.last().0, ps.last().1, strategy);
        assert forall|i: int| 0 <= i < edges.len() implies {
            let f = #[trigger] apply_all(edges, ps, strategy, now)[i];
            &&& f.from == edges[i].from
            &&& f.to == edges[i].to
            &&& f.relation_type == edges[i].relation_type
            &&& f.owner == edges[i].owner
            &&& f.valid_from == edges[i].valid_from
            &&& (active(f) ==> active(edges[i]))
            &&& (active(f) ==> forall|k: int| 0 <= k < ps.len() ==> !same_version(edges[i], #[trigger] pick(ps[k].0, ps[k].1, strategy).1))
        } by {
            let p = prev[i];
            let f = apply_all(edges, ps, strategy, now)[i];
            assert(f == (if same_version(p, l) { superseded(p, w.to, now) } else { p }));
            if active(f) {
                assert(!same_version(p, l));
                assert forall|k: int| 0 <= k < ps.len() implies !same_version(edges[i], #[trigger] pick(ps[k].0, ps[k].1, strategy).1) by {
                    if k < ps.len() - 1 {
                        assert(ps.drop_last()[k] == ps[k]);
                    } else {
                        assert(ps[k] == ps.last());
                    }
                }
            }
        }
    }
}

/// Every two versions of a group with different targets, earlier first, are paired.
proof fn lemma_group_pairs_contains(g: Seq<EdgeModel>, a: int, b: int)
    requires
        0 <= a < b < g.len(),
        g[a].to != g[b].to,
    ensures
        group_pairs(g).contains((g[a], g[b])),
    decreases g.len(),
{
    let rest = g.drop_first();
    let head = rest.filter(differs_from(g[0])).map_values(paired_with(g[0]));
    assert(group_pairs(g) == head + group_pairs(rest));
    if a == 0 {
        assert(rest[b - 1] == g[b]);
        assert(differs_from(g[0])(rest[b - 1]));
        rest.lemma_filter_contains(differs_from(g[0]), b - 1);
        let fl = rest.filter(differs_from(g[0]));
        let j = choose|j: int| 0 <= j < fl.len() && fl[j] == g[b];
        assert(head[j] == (g[0], g[b]));
        assert((head + group_pairs(rest))[j] == (g[0], g[b]));
    } else {
        lemma_group_pairs_contains(rest, a - 1, b - 1);
        assert(rest[a - 1] == g[a] && rest[b - 1] == g[b]);
        let t = group_pairs(rest);
        let j = choose|j: int| 0 <= j < t.len() && t[j] == (g[a], g[b]);
        assert((head + t)[head.len() + j] == (g[a], g[b]));
    }
}

/// Every version's (source, type) is among the groups.
proof fn lemma_group_keys_contains(es: Seq<EdgeModel>, i: int)
    requires
        0 <= i < es.len(),
    ensures
        group_keys(es).contains(group_key(es[i])),
    decreases es.len(),
{
    let p = group_keys(es.drop_last());
    if i == es.len() - 1 {
        if !p.contains(group_key(es.last())) {
            assert(p.push(group_key(es.last()))[p.len() as int] == group_key(es[i]));
        }
    } else {
        lemma_group_keys_contains(es.drop_last(), i);
        assert(es.drop_last()[i] == es[i]);
        if !p.contains(group_key(es.last())) {
            let j = choose|j: int| 0 <= j < p.len() && p[j] == group_key(es[i]);
            assert(p.push(group_key(es.last()))[j] == group_key(es[i]));
        }
    }
}

/// The pairs of every listed group are among the pairs of all groups.
proof fn lemma_pairs_over_contains(es: Seq<EdgeModel>, keys: Seq<(Seq<char>, Seq<char>)>, t: int, pair: (EdgeModel, EdgeModel))
    requires
        0 <= t < keys.len(),
        group_pairs(es.filter(in_group(keys[t]))).contains(pair),
    ensures
        pairs_over(es, keys).contains(pair),
    decreases keys.len(),
{
    let before = pairs_over(es, keys.drop_last());
    let last = group_pairs(es.filter(in_group(keys.last())));
    assert(pairs_over(es, keys) == before + last);
    if t == keys.len() - 1 {
        let j = choose|j: int| 0 <= j < last.len() && last[j] == pair;
        assert((before + last)[before.len() + j] == pair);
    } else {
        assert(keys.drop_last()[t] == keys[t]);
        lemma_pairs_over_contains(es, keys.drop_last(), t, pair);
        let j = choose|j: int| 0 <= j < before.len() && before[j] == pair;
        assert((before + last)[j] == pair);
    }
}

/// Conflict resolution leaves one target per group: after every conflicting pair of
/// `edges` is resolved, no two active versions in reach of `scope` with the same source
/// and the same exclusive relation type have different targets, whatever the strategy.
pub proof fn law_resolution_leaves_one_target(edges: Seq<EdgeModel>, scope: MemoryScope, excl: Seq<Seq<char>>,
    strategy: Seq<char>, now: Seq<char>, i: int, j: int)
    requires
        0 <= i < edges.len(),
        0 <= j < edges.len(),
        candidate(scope, excl)(apply_all(edges, conflict_pairs(edges, scope, excl), strategy, now)[i]),
        candidate(scope, excl)(apply_all(edges, conflict_pairs(edges, scope, excl), strategy, now)[j]),
        group_key(apply_all(edges, conflict_pairs(edges, scope, excl), strategy, now)[i])
            == group_key(apply_all(edges, conflict_pairs(edges, scope, excl), strategy, now)[j]),
    ensures
        apply_all(edges, conflict_pairs(edges, scope, excl), strategy, now)[i].to
            == apply_all(edges, conflict_pairs(edges, scope, excl), strategy, now)[j].to,
{
    let ps = conflict_pairs(edges, scope, excl);
    let f = apply_all(edges, ps, strategy, now);
    lemma_apply_all_shape(edges, ps, strategy, now);
    let fi = f[i];
    let fj = f[j];
    if fi.to != fj.to {
        let x = edges[i];
        let y = edges[j];
        let c = candidate(scope, excl);
        assert(c(x) && c(y));
        let es = edges.filter(c);
        edges.lemma_filter_contains(c, i);
        edges.lemma_filter_contains(c, j);
        let p = choose|p: int| 0 <= p < es.len() && es[p] == x;
        let q = choose|q: int| 0 <= q < es.len() && es[q] == y;
        let keys = group_keys(es);
        lemma_group_keys_contains(es, p);
        let k = group_key(x);
        let t = choose|t: int| 0 <= t < keys.len() && keys[t] == k;
        let g = es.filter(in_group(k));
        es.lemma_filter_contains(in_group(k), p);
        assert(in_group(k)(es[q]));
        es.lemma_filter_contains(in_group(k), q);
        let a = choose|a: int| 0 <= a < g.len() && g[a] == x;
        let b = choose|b: int| 0 <= b < g.len() && g[b] == y;
        let pair = if a < b { (x, y) } else { (y, x) };
        if a < b {
            lemma_group_pairs_contains(g, a, b);
        } else {
            lemma_group_pairs_contains(g, b, a);
        }
        lemma_pairs_over_contains(es, keys, t, pair);
        let m = choose|m: int| 0 <= m < ps.len() && ps[m] == pair;
        lemma_pick_members(pair.0, pair.1, strategy);
        let loser = pick(ps[m].0, ps[m].1, strategy).1;
        assert(loser == x || loser == y);
        if loser == x {
            assert(same_version(edges[i], loser));
        } else {
            assert(same_version(edges[j], loser));
        }
    }
}


pub open spec fn pair_views(s: Seq<(EdgeRow, EdgeRow)>) -> Seq<(EdgeModel, EdgeModel)> {
    s.map_values(|p: (EdgeRow, EdgeRow)| (p.0.view(), p.1.view()))
}

fn contains_string(v: &Vec<String>, x: &String) -> (b: bool)
    ensures
        b == string_views(v@).contains(x@),
{
    let mut i: usize = 0;
    while i < v.len()
        invariant
            i <= v.len(),
            forall|k: int| 0 <= k < i ==> string_views(v@)[k] != x@,
        decreases v.len() - i,
    {
        assert(string_views(v@)[i as int] == v@[i as int]@);
        if str_eq(v[i].as_str(), x.as_str()) {
            return true;
        }
        i += 1;
    }
    false
}

fn candidates_exec(rows: &Vec<EdgeRow>, excl: &Vec<String>, scope: &MemoryScope) -> (r: Vec<EdgeRow>)
    ensures
        edge_views(r@) == edge_views(rows@).filter(candidate(*scope, string_views(excl@))),
{
    let ghost sv = edge_views(rows@);
    let ghost p = candidate(*scope, string_views(excl@));
    let mut r: Vec<EdgeRow> = Vec::new();
    let mut i: usize = 0;
    while i < rows.len()
        invariant
            i <= rows.len(),
            sv == edge_views(rows@),
            p == candidate(*scope, string_views(excl@)),
            edge_views(r@) == sv.take(i as int).filter(p),
        decreases rows.len() - i,
    {
        let e = &rows[i];
        proof {
            assert(sv.take(i + 1) =~= sv.take(i as int).push(e.view()));
            lemma_filter_push(sv.take(i as int), e.view(), p);
        }
        let ghost before = edge_views(r@);
        if e.valid_until.is_none() && is_reachable(scope, &e.owner) && contains_string(excl, &e.relation_type) {
            r.push(e.duplicate());
            assert(edge_views(r@) =~= before.push(e.view()));
        }
        i += 1;
    }
    assert(sv.take(rows.len() as int) =~= sv);
    r
}

fn group_keys_exec(es: &Vec<EdgeRow>) -> (r: Vec<(String, String)>)
    ensures
        r@.map_values(|k: (String, String)| (k.0@, k.1@)) == group_keys(edge_views(es@)),
{
    let ghost sv = edge_views(es@);
    let mut r: Vec<(String, String)> = Vec::new();
    let mut i: usize = 0;
    assert(r@.map_values(|k: (String, String)| (k.0@, k.1@)) =~= group_keys(sv.take(0)));
    while i < es.len()
        invariant
            i <= es.len(),
            sv == edge_views(es@),
            r@.map_values(|k: (String, String)| (k.0@, k.1@)) == group_keys(sv.take(i as int)),
        decreases es.len() - i,
    {
        let e = &es[i];
        proof {
            assert(sv.take(i + 1).drop_last() =~= sv.take(i as int));
            assert(sv.take(i + 1).last() == e.view());
        }
        let ghost p = r@.map_values(|k: (String, String)| (k.0@, k.1@));
        let mut j: usize = 0;
        let mut found = false;
        while !found && j < r.len()
            invariant
                j <= r.len(),
                p == r@.map_values(|k: (String, String)| (k.0@, k.1@)),
                forall|t: int| 0 <= t < j ==> p[t] != group_key(e.view()),
                found ==> j < r.len() && p[j as int] == group_key(e.view()),
            decreases r.len() - j + (if found { 0int } else { 1int }),
        {
            if str_eq(r[j].0.as_str(), e.from.as_str()) && str_eq(r[j].1.as_str(), e.relation_type.as_str()) {
                found = true;
            } else {
                j += 1;
            }
        }
        if found {
            assert(p.contains(group_key(e.view())));
        } else {
            assert(!p.contains(group_key(e.view())));
            r.push((e.from.clone(), e.relation_type.clone()));
            assert(r@.map_values(|k: (String, String)| (k.0@, k.1@)) =~= p.push(group_key(e.view())));
        }
        i += 1;
    }
    assert(sv.take(es.len() as int) =~= sv);
    r
}

fn group_exec(es: &Vec<EdgeRow>, k: &(String, String)) -> (r: Vec<EdgeRow>)
    ensures
        edge_views(r@) == edge_views(es@).filter(in_group((k.0@, k.1@))),
{
    let ghost sv = edge_views(es@);
    let ghost p = in_group((k.0@, k.1@));
    let mut r: Vec<EdgeRow> = Vec::new();
    let mut i: usize = 0;
    while i < es.len()
        invariant
            i <= es.len(),
            sv == edge_views(es@),
            p == in_group((k.0@, k.1@)),
            edge_views(r@) == sv.take(i as int).filter(p),
        decreases es.len() - i,
    {
        let e = &es[i];
        proof {
            assert(sv.take(i + 1) =~= sv.take(i as int).push(e.view()));
            lemma_filter_push(sv.take(i as int), e.view(), p);
        }
        let ghost before = edge_views(r@);
        if str_eq(e.from.as_str(), k.0.as_str()) && str_eq(e.relation_type.as_str(), k.1.as_str()) {
            r.push(e.duplicate());
            assert(edge_views(r@) =~= before.push(e.view()));
        }
        i += 1;
    }
    assert(sv.take(es.len() as int) =~= sv);
    r
}

fn group_pairs_exec(g: &Vec<EdgeRow>, out: &mut Vec<(EdgeRow, EdgeRow)>)
    ensures
        pair_views(final(out)@) == pair_views(old(out)@) + group_pairs(edge_views(g@)),
{
    let ghost gv = edge_views(g@);
    let ghost o0 = pair_views(out@);
    let mut i: usize = 0;
    assert(gv.skip(0) =~= gv);
    while i < g.len()
        invariant
            i <= g.len(),
            gv == edge_views(g@),
            pair_views(out@) + group_pairs(gv.skip(i as int)) == o0 + group_pairs(gv),
        decreases g.len() - i,
    {
        let a = &g[i];
        let ghost rest = gv.skip(i + 1);
        proof {
            assert(gv.skip(i as int).drop_first() =~= rest);
            assert(gv.skip(i as int)[0] == a.view());
        }
        let ghost oi = pair_views(out@);
        let mut j: usize = i + 1;
        assert(rest.take(0) =~= Seq::<EdgeModel>::empty());
        assert(pair_views(out@) =~= oi + rest.take(0).filter(differs_from(a.view())).map_values(paired_with(a.view())));
        while j < g.len()
            invariant
                i < j <= g.len(),
                gv == edge_views(g@),
                rest == gv.skip(i + 1),
                a.view() == gv[i as int],
                pair_views(out@) == oi + rest.take(j - i - 1).filter(differs_from(a.view())).map_values(paired_with(a.view())),
            decreases g.len() - j,
        {
            let b = &g[j];
            proof {
                assert(rest.take(j - i) =~= rest.take(j - i - 1).push(b.view()));
                lemma_filter_map_push(rest.take(j - i - 1), b.view(), differs_from(a.view()), paired_with(a.view()));
            }
            let ghost before = pair_views(out@);
            if !str_eq(b.to.as_str(), a.to.as_str()) {
                out.push((a.duplicate(), b.duplicate()));
                assert(pair_views(out@) =~= before.push((a.view(), b.view())));
            }
            j += 1;
        }
        proof {
            assert(rest.take(g.len() - i - 1) =~= rest);
            assert(pair_views(out@) + group_pairs(gv.skip(i + 1)) =~= oi + group_pairs(gv.skip(i as int)));
        }
        i += 1;
    }
    assert(gv.skip(g.len() as int) =~= Seq::<EdgeModel>::empty());
    assert(pair_views(out@) =~= o0 + group_pairs(gv));
}

fn conflict_pairs_exec(graph: &GraphMemory, excl: &Vec<String>, scope: &MemoryScope) -> (r: Vec<(EdgeRow, EdgeRow)>)
    ensures
        pair_views(r@) == conflict_pairs(graph.edges(), *scope, string_views(excl@)),
{
    let cands = candidates_exec(graph.edge_rows(), excl, scope);
    let keys = group_keys_exec(&cands);
    let ghost es = edge_views(cands@);
    let ghost ks = group_keys(es);
    let mut out: Vec<(EdgeRow, EdgeRow)> = Vec::new();
    let mut k: usize = 0;
    assert(pair_views(out@) =~= pairs_over(es, ks.take(0)));
    while k < keys.len()
        invariant
            k <= keys.len(),
            es == edge_views(cands@),
            ks == keys@.map_values(|x: (String, String)| (x.0@, x.1@)),
            pair_views(out@) == pairs_over(es, ks.take(k as int)),
        decreases keys.len() - k,
    {
        proof {
            assert(ks.take(k + 1).drop_last() =~= ks.take(k as int));
            assert(ks.take(k + 1).last() == (keys@[k as int].0@, keys@[k as int].1@));
        }
        let g = group_exec(&cands, &keys[k]);
        group_pairs_exec(&g, &mut out);
        k += 1;
    }
    assert(ks.take(keys.len() as int) =~= ks);
    out
}

/// Picks winner and loser (see `pick`).
fn pick_exec<'a>(a: &'a EdgeRow, b: &'a EdgeRow, strategy: &str) -> (r: (&'a EdgeRow, &'a EdgeRow))
    ensures
        (r.0.view(), r.1.view()) == pick(a.view(), b.view(), strategy@),
{
    if str_eq(strategy, "confidence") && a.confidence_ppm != b.confidence_ppm {
        if a.confidence_ppm > b.confidence_ppm { (a, b) } else { (b, a) }
    } else if string_lt(b.valid_from.as_str(), a.valid_from.as_str()) {
        (a, b)
    } else {
        (b, a)
    }
}

fn edge_key_exec(e: &EdgeRow) -> (r: String)
    ensures
        r@ == edge_key(e.view()),
{
    let mut k = e.from.clone();
    k.append("-");
    k.append(e.to.as_str());
    k.append("-");
    k.append(e.relation_type.as_str());
    k
}

fn conflict_exec(a: &EdgeRow, b: &EdgeRow) -> (r: GraphConflict)
    ensures
        r.view() == conflict_of(a.view(), b.view()),
{
    let (x, y) = if string_le(a.valid_from.as_str(), b.valid_from.as_str()) { (a, b) } else { (b, a) };
    GraphConflict {
        from_name: a.from.clone(),
        relation_type: a.relation_type.clone(),
        existing_target: x.to.clone(),
        new_target: y.to.clone(),
        existing_edge_key: edge_key_exec(x),
        new_edge_key: edge_key_exec(y),
    }
}

fn action_text_exec(a: &EdgeRow, w: &EdgeRow, l: &EdgeRow) -> (r: String)
    ensures
        r@ == action_text(a.view(), w.view(), l.view()),
{
    let mut t = owned("Resolved graph conflict for ");
    t.append(a.from.as_str());
    t.append("(");
    t.append(a.relation_type.as_str());
    t.append("): ");
    t.append(w.to.as_str());
    t.append(" (valid: ");
    t.append(w.valid_from.as_str());
    t.append(") wins over ");
    t.append(l.to.as_str());
    t.append(" (valid: ");
    t.append(l.valid_from.as_str());
    t.append(")");
    t
}

pub struct ConflictResolver;

impl ConflictResolver {
    /// Finds and resolves the graph conflicts at time `now`: among the active relation
    /// versions in reach of `scope` whose type is exclusive, grouped by (source, type) in
    /// order of first appearance, every two versions of a group with different targets
    /// conflict.  Each conflict is reported with a fresh identifier, and its resolution
    /// under `strategy` is reported under the same identifier; unless `dry_run`, each
    /// loser is superseded by its winner's target at `now`, in order.
    pub fn resolve_graph_conflicts_at(graph: &mut GraphMemory, exclusive_relations: &Vec<String>, strategy: &str,
        dry_run: bool, scope: &MemoryScope, now: &str) -> (r: GraphConflictReport)
        ensures
            ({
                let ps = conflict_pairs(old(graph).edges(), *scope, string_views(exclusive_relations@));
                &&& r.conflicts@.map_values(|c: GraphConflictPair| c.details.view()) == ps.map_values(|p: (EdgeModel, EdgeModel)| conflict_of(p.0, p.1))
                &&& r.resolutions_applied@.map_values(|a: ResolutionAction| a.view())
                    == ps.map_values(|p: (EdgeModel, EdgeModel)| action_of(p.0, p.1, strategy@, dry_run))
                &&& final(graph).edges() == (if dry_run { old(graph).edges() } else { apply_all(old(graph).edges(), ps, strategy@, now@) })
            }),
            r.conflicts.len() == r.resolutions_applied.len(),
            forall|i: int| 0 <= i < r.conflicts.len() ==> #[trigger] r.conflicts@[i].id@ == r.resolutions_applied@[i].conflict_id@,
            final(graph).nodes() == old(graph).nodes(),
    {
        let pairs = conflict_pairs_exec(graph, exclusive_relations, scope);
        let ghost ps = pair_views(pairs@);
        let ghost e0 = graph.edges();
        let mut conflicts: Vec<GraphConflictPair> = Vec::new();
        let mut actions: Vec<ResolutionAction> = Vec::new();
        let mut i: usize = 0;
        while i < pairs.len()
            invariant
                i <= pairs.len(),
                ps == pair_views(pairs@),
                ps == conflict_pairs(old(graph).edges(), *scope, string_views(exclusive_relations@)),
                e0 == old(graph).edges(),
                graph.nodes() == old(graph).nodes(),
                graph.edges() == (if dry_run { e0 } else { apply_all(e0, ps.take(i as int), strategy@, now@) }),
                conflicts.len() == i,
                actions.len() == i,
                conflicts@.map_values(|c: GraphConflictPair| c.details.view()) == ps.take(i as int).map_values(|p: (EdgeModel, EdgeModel)| conflict_of(p.0, p.1)),
                actions@.map_values(|a: ResolutionAction| a.view()) == ps.take(i as int).map_values(|p: (EdgeModel, EdgeModel)| action_of(p.0, p.1, strategy@, dry_run)),
                forall|k: int| 0 <= k < i ==> #[trigger] conflicts@[k].id@ == actions@[k].conflict_id@,
            decreases pairs.len() - i,
        {
            let a = &pairs[i].0;
            let b = &pairs[i].1;
            proof {
                assert(ps[i as int] == (a.view(), b.view()));
                assert(ps.take(i + 1) =~= ps.take(i as int).push(ps[i as int]));
            }
            let id = fresh_id();
            let (w, l) = pick_exec(a, b, strategy);
            let details = conflict_exec(a, b);
            let text = action_text_exec(a, w, l);
            if !dry_run {
                graph.supersede_at(l, w.to.as_str(), now);
            }
            let ghost c0 = conflicts@;
            let ghost a0 = actions@;
            conflicts.push(GraphConflictPair { id: id.clone(), details });
            actions.push(ResolutionAction {
                conflict_id: id,
                resolved: !dry_run,
                action_taken: text,
                winner_id: edge_key_exec(w),
                loser_id: edge_key_exec(l),
            });
            proof {
                assert(conflicts@.map_values(|c: GraphConflictPair| c.details.view())
                    =~= c0.map_values(|c: GraphConflictPair| c.details.view()).push(conflict_of(a.view(), b.view())));
                assert(ps.take(i + 1).map_values(|p: (EdgeModel, EdgeModel)| conflict_of(p.0, p.1))
                    =~= ps.take(i as int).map_values(|p: (EdgeModel, EdgeModel)| conflict_of(p.0, p.1)).push(conflict_of(a.view(), b.view())));
                assert(actions@.map_values(|x: ResolutionAction| x.view())
                    =~= a0.map_values(|x: ResolutionAction| x.view()).push(action_of(a.view(), b.view(), strategy@, dry_run)));
                assert(ps.take(i + 1).map_values(|p: (EdgeModel, EdgeModel)| action_of(p.0, p.1, strategy@, dry_run))
                    =~= ps.take(i as int).map_values(|p: (EdgeModel, EdgeModel)| action_of(p.0, p.1, strategy@, dry_run)).push(action_of(a.view(), b.view(), strategy@, dry_run)));
                assert(ps.take(i + 1).drop_last() =~= ps.take(i as int));
                assert forall|k: int| 0 <= k < i + 1 implies #[trigger] conflicts@[k].id@ == actions@[k].conflict_id@ by {
                    if k < i {
                        assert(conflicts@[k] == c0[k]);
                        assert(actions@[k] == a0[k]);
                    }
                }
            }
            i += 1;
        }
        assert(ps.take(pairs.len() as int) =~= ps);
        GraphConflictReport { conflicts, resolutions_applied: actions }
    }

    /// Resolves the graph conflicts now (see `resolve_graph_conflicts_at`).
    pub fn resolve_graph_conflicts(graph: &mut GraphMemory, exclusive_relations: &Vec<String>, strategy: &str,
        dry_run: bool, scope: &MemoryScope) -> (r: GraphConflictReport)
        ensures
            ({
                let ps = conflict_pairs(old(graph).edges(), *scope, string_views(exclusive_relations@));
                &&& r.conflicts@.map_values(|c: GraphConflictPair| c.details.view()) == ps.map_values(|p: (EdgeModel, EdgeModel)| conflict_of(p.0, p.1))
                &&& r.resolutions_applied@.map_values(|a: ResolutionAction| a.view())
                    == ps.map_values(|p: (EdgeModel, EdgeModel)| action_of(p.0, p.1, strategy@, dry_run))
                &&& dry_run ==> final(graph).edges() == old(graph).edges()
                &&& !dry_run ==> exists|now: Seq<char>| final(graph).edges() == #[trigger] apply_all(old(graph).edges(), ps, strategy@, now)
            }),
            r.conflicts.len() == r.resolutions_applied.len(),
            forall|i: int| 0 <= i < r.conflicts.len() ==> #[trigger] r.conflicts@[i].id@ == r.resolutions_applied@[i].conflict_id@,
            final(graph).nodes() == old(graph).nodes(),
    {
        let now = utc_timestamp();
        Self::resolve_graph_conflicts_at(graph, exclusive_relations, strategy, dry_run, scope, now.as_str())
    }
}


/// An active semantic fact as conflict detection reads it; `importance_ppm` is in
/// millionths.
#[derive(Debug, Clone)]
pub struct FactRecord {
    pub node_id: String,
    pub raw_text: String,
    pub valid_from: String,
    pub importance_ppm: u32,
}

pub struct FactModel {
    pub node_id: Seq<char>,
    pub raw_text: Seq<char>,
    pub valid_from: Seq<char>,
    pub importance: int,
}

impl FactRecord {
    pub open spec fn view(&self) -> FactModel {
        FactModel { node_id: self.node_id@, raw_text: self.raw_text@, valid_from: self.valid_from@, importance: self.importance_ppm as int }
    }
}

pub open spec fn fact_views(s: Seq<FactRecord>) -> Seq<FactModel> {
    s.map_values(|f: FactRecord| f.view())
}

/// A semantic conflict between facts `first` and `second` (by position, `first` before
/// `second`), and which of the two wins.
#[derive(Debug, Clone, Copy)]
pub struct SemanticPairing {
    pub first: usize,
    pub second: usize,
    pub winner: usize,
    pub loser: usize,
}

/// Winner and loser of a semantic conflict: by importance first for "confidence" and
/// "importance", then by recency.
pub open spec fn fact_pick(f: Seq<FactModel>, i: int, j: int, strategy: Seq<char>) -> (int, int) {
    if (strategy == "confidence"@ || strategy == "importance"@) && f[i].importance != f[j].importance {
        if f[i].importance > f[j].importance { (i, j) } else { (j, i) }
    } else {
        recency_pick(i, j, f[i].valid_from, f[j].valid_from)
    }
}

/// The loser ids so far and the conflicts found.
pub type PairState = (Seq<Seq<char>>, Seq<(int, int, int, int)>);

/// Comparing facts `i` and `j`: skipped when either has already lost; a conflict when
/// they are similar, whose loser is then remembered.
pub open spec fn pair_step(st: PairState, f: Seq<FactModel>, sim: Seq<Seq<bool>>, i: int, j: int, strategy: Seq<char>) -> PairState {
    if st.0.contains(f[i].node_id) || st.0.contains(f[j].node_id) || !sim[i][j] {
        st
    } else {
        let (w, l) = fact_pick(f, i, j, strategy);
        (st.0.push(f[l].node_id), st.1.push((i, j, w, l)))
    }
}

/// Comparing fact `i` with facts `i + 1 .. end`.
pub open spec fn pair_row(st: PairState, f: Seq<FactModel>, sim: Seq<Seq<bool>>, i: int, end: int, strategy: Seq<char>) -> PairState
    decreases end - i,
{
    if end <= i + 1 {
        st
    } else {
        pair_step(pair_row(st, f, sim, i, end - 1, strategy), f, sim, i, end - 1, strategy)
    }
}

/// Comparing every pair of the first `end` facts with any later one, in order.
pub open spec fn pair_rows(f: Seq<FactModel>, sim: Seq<Seq<bool>>, end: int, strategy: Seq<char>) -> PairState
    decreases end,
{
    if end <= 0 {
        (Seq::empty(), Seq::empty())
    } else {
        pair_row(pair_rows(f, sim, end - 1, strategy), f, sim, end - 1, f.len() as int, strategy)
    }
}

pub open spec fn pairing_view(p: SemanticPairing) -> (int, int, int, int) {
    (p.first as int, p.second as int, p.winner as int, p.loser as int)
}

pub open spec fn bool_rows(sim: Seq<Vec<bool>>) -> Seq<Seq<bool>> {
    sim.map_values(|r: Vec<bool>| r@)
}

fn contains_id(v: &Vec<String>, x: &String) -> (b: bool)
    ensures
        b == string_views(v@).contains(x@),
{
    contains_string(v, x)
}

impl ConflictResolver {
    /// The semantic conflicts among `facts`: every two facts, in order, that `similar`
    /// marks as similar (`similar[i][j]` for `i < j`) and neither of which has already
    /// lost a conflict (by node id).  Each comes with its winner and loser under
    /// `strategy`.
    pub fn semantic_pairings(facts: &Vec<FactRecord>, similar: &Vec<Vec<bool>>, strategy: &str) -> (r: Vec<SemanticPairing>)
        requires
            similar.len() == facts.len(),
            forall|i: int| 0 <= i < similar.len() ==> #[trigger] similar@[i].len() == facts.len(),
        ensures
            r@.map_values(|p: SemanticPairing| pairing_view(p))
                == pair_rows(fact_views(facts@), bool_rows(similar@), facts.len() as int, strategy@).1,
    {
        let ghost f = fact_views(facts@);
        let ghost sm = bool_rows(similar@);
        let mut losers: Vec<String> = Vec::new();
        let mut out: Vec<SemanticPairing> = Vec::new();
        let n = facts.len();
        let mut i: usize = 0;
        assert(string_views(losers@) =~= Seq::<Seq<char>>::empty());
        assert(out@.map_values(|p: SemanticPairing| pairing_view(p)) =~= Seq::<(int, int, int, int)>::empty());
        while i < n
            invariant
                i <= n,
                n == facts.len(),
                f == fact_views(facts@),
                sm == bool_rows(similar@),
                similar.len() == n,
                forall|k: int| 0 <= k < similar.len() ==> #[trigger] similar@[k].len() == n,
                (string_views(losers@), out@.map_values(|p: SemanticPairing| pairing_view(p))) == pair_rows(f, sm, i as int, strategy@),
            decreases n - i,
        {
            let ghost st0 = pair_rows(f, sm, i as int, strategy@);
            let mut j: usize = i + 1;
            while j < n
                invariant
                    i < n,
                    i + 1 <= j <= n,
                    n == facts.len(),
                    f == fact_views(facts@),
                    sm == bool_rows(similar@),
                    similar.len() == n,
                    forall|k: int| 0 <= k < similar.len() ==> #[trigger] similar@[k].len() == n,
                    (string_views(losers@), out@.map_values(|p: SemanticPairing| pairing_view(p))) == pair_row(st0, f, sm, i as int, j as int, strategy@),
                decreases n - j,
            {
                let a = &facts[i];
                let b = &facts[j];
                proof {
                    assert(f[i as int] == a.view());
                    assert(f[j as int] == b.view());
                    assert(sm[i as int] == similar@[i as int]@);
                    assert(similar@[i as int].len() == n);
                }
                let ghost pre = (string_views(losers@), out@.map_values(|p: SemanticPairing| pairing_view(p)));
                if !contains_id(&losers, &a.node_id) && !contains_id(&losers, &b.node_id) && similar[i][j] {
                    let by_importance = (str_eq(strategy, "confidence") || str_eq(strategy, "importance")) && a.importance_ppm != b.importance_ppm;
                    let (w, l): (usize, usize) = if by_importance {
                        if a.importance_ppm > b.importance_ppm { (i, j) } else { (j, i) }
                    } else if string_lt(b.valid_from.as_str(), a.valid_from.as_str()) {
                        (i, j)
                    } else {
                        (j, i)
                    };
                    assert((w as int, l as int) == fact_pick(f, i as int, j as int, strategy@));
                    let ghost o0 = out@;
                    losers.push(facts[l].node_id.clone());
                    out.push(SemanticPairing { first: i, second: j, winner: w, loser: l });
                    proof {
                        assert(string_views(losers@) =~= pre.0.push(f[l as int].node_id));
                        assert(out@.map_values(|p: SemanticPairing| pairing_view(p))
                            =~= o0.map_values(|p: SemanticPairing| pairing_view(p)).push((i as int, j as int, w as int, l as int)));
                    }
                }
                j += 1;
            }
            i += 1;
        }
        out
    }
}


/// After a live resolution every loser is closed: no stored copy of a losing version is
/// active any more, and no version is added or removed.
pub proof fn law_losers_closed(edges: Seq<EdgeModel>, ps: Seq<(EdgeModel, EdgeModel)>, strategy: Seq<char>, now: Seq<char>)
    ensures
        apply_all(edges, ps, strategy, now).len() == edges.len(),
        forall|k: int, e: int| 0 <= k < ps.len() && 0 <= e < edges.len()
            && crate::graph::same_version(#[trigger] apply_all(edges, ps, strategy, now)[e], #[trigger] pick(ps[k].0, ps[k].1, strategy).1)
            ==> !crate::graph::active(apply_all(edges, ps, strategy, now)[e]),
    decreases ps.len(),
{
    if ps.len() > 0 {
        let prev = apply_all(edges, ps.drop_last(), strategy, now);
        law_losers_closed(edges, ps.drop_last(), strategy, now);
        let cur = apply_all(edges, ps, strategy, now);
        let (w, l) = pick(ps.last().0, ps.last().1, strategy);
        assert forall|k: int, e: int| 0 <= k < ps.len() && 0 <= e < edges.len()
            && crate::graph::same_version(#[trigger] cur[e], #[trigger] pick(ps[k].0, ps[k].1, strategy).1)
            implies !crate::graph::active(cur[e]) by {
            if crate::graph::same_version(prev[e], l) {
                assert(cur[e] == crate::graph::superseded(prev[e], w.to, now));
            } else {
                assert(cur[e] == prev[e]);
                assert(k < ps.len() - 1) by {
                    if k == ps.len() - 1 {
                        assert(ps[k] == ps.last());
                    }
                }
                assert(ps.drop_last()[k] == ps[k]);
            }
        }
    }
}


/// A pairing state is consistent: the loser ids are exactly those of the conflicts found,
/// each conflict pairs two facts in order with its winner and loser being those two, and
/// no id has lost twice.
pub open spec fn pairs_ok(st: PairState, f: Seq<FactModel>) -> bool {
    &&& st.0 == st.1.map_values(|c: (int, int, int, int)| f[c.3].node_id)
    &&& forall|k: int| 0 <= k < st.1.len() ==> {
        let c = #[trigger] st.1[k];
        &&& 0 <= c.0 < c.1 < f.len()
        &&& ((c.2 == c.0 && c.3 == c.1) || (c.2 == c.1 && c.3 == c.0))
    }
    &&& forall|a: int, b: int| 0 <= a < b < st.0.len() ==> st.0[a] != st.0[b]
}

proof fn lemma_pair_step_ok(st: PairState, f: Seq<FactModel>, sim: Seq<Seq<bool>>, i: int, j: int, strategy: Seq<char>)
    requires
        pairs_ok(st, f),
        0 <= i < j < f.len(),
    ensures
        pairs_ok(pair_step(st, f, sim, i, j, strategy), f),
{
    if !(st.0.contains(f[i].node_id) || st.0.contains(f[j].node_id) || !sim[i][j]) {
        let (w, l) = fact_pick(f, i, j, strategy);
        let c = (i, j, w, l);
        let n = pair_step(st, f, sim, i, j, strategy);
        assert(n.0 =~= n.1.map_values(|c: (int, int, int, int)| f[c.3].node_id));
        assert forall|a: int, b: int| 0 <= a < b < n.0.len() implies n.0[a] != n.0[b] by {
            if b == st.0.len() {
                assert(n.0[a] == st.0[a]);
                assert(st.0.contains(st.0[a]));
            }
        }
    }
}

proof fn lemma_pair_row_ok(st: PairState, f: Seq<FactModel>, sim: Seq<Seq<bool>>, i: int, end: int, strategy: Seq<char>)
    requires
        pairs_ok(st, f),
        0 <= i,
        end <= f.len(),
    ensures
        pairs_ok(pair_row(st, f, sim, i, end, strategy), f),
    decreases end - i,
{
    if end > i + 1 {
        lemma_pair_row_ok(st, f, sim, i, end - 1, strategy);
        lemma_pair_step_ok(pair_row(st, f, sim, i, end - 1, strategy), f, sim, i, end - 1, strategy);
    }
}

proof fn lemma_pair_rows_ok(f: Seq<FactModel>, sim: Seq<Seq<bool>>, end: int, strategy: Seq<char>)
    requires
        end <= f.len(),
    ensures
        pairs_ok(pair_rows(f, sim, end, strategy), f),
    decreases end,
{
    if end > 0 {
        lemma_pair_rows_ok(f, sim, end - 1, strategy);
        lemma_pair_row_ok(pair_rows(f, sim, end - 1, strategy), f, sim, end - 1, f.len() as int, strategy);
    } else {
        let st: PairState = (Seq::empty(), Seq::empty());
        assert(st.0 =~= st.1.map_values(|c: (int, int, int, int)| f[c.3].node_id));
    }
}

/// Every semantic conflict pairs two facts in order, its winner and loser are those two
/// facts, and no fact id loses more than once.
pub proof fn law_semantic_pairings(f: Seq<FactModel>, sim: Seq<Seq<bool>>, strategy: Seq<char>)
    ensures
        ({
            let cs = pair_rows(f, sim, f.len() as int, strategy).1;
            &&& forall|k: int| 0 <= k < cs.len() ==> {
                let c = #[trigger] cs[k];
                &&& 0 <= c.0 < c.1 < f.len()
                &&& ((c.2 == c.0 && c.3 == c.1) || (c.2 == c.1 && c.3 == c.0))
            }
            &&& forall|a: int, b: int| 0 <= a < b < cs.len() ==> f[(#[trigger] cs[a]).3].node_id != f[(#[trigger] cs[b]).3].node_id
        }),
{
    lemma_pair_rows_ok(f, sim, f.len() as int, strategy);
    let st = pair_rows(f, sim, f.len() as int, strategy);
    assert forall|a: int, b: int| 0 <= a < b < st.1.len() implies f[(#[trigger] st.1[a]).3].node_id != f[(#[trigger] st.1[b]).3].node_id by {
        assert(st.0[a] == f[st.1[a].3].node_id);
        assert(st.0[b] == f[st.1[b].3].node_id);
    }
}


/// Every recorded semantic conflict carries the winner and loser that `fact_pick` names.
proof fn lemma_pairs_picked(f: Seq<FactModel>, sim: Seq<Seq<bool>>, end: int, strategy: Seq<char>)
    ensures
        forall|k: int| 0 <= k < pair_rows(f, sim, end, strategy).1.len() ==> {
            let c = #[trigger] pair_rows(f, sim, end, strategy).1[k];
            (c.2, c.3) == fact_pick(f, c.0, c.1, strategy)
        },
    decreases end,
{
    if end > 0 {
        lemma_pairs_picked(f, sim, end - 1, strategy);
        lemma_row_picked(pair_rows(f, sim, end - 1, strategy), f, sim, end - 1, f.len() as int, strategy);
    }
}

proof fn lemma_row_picked(st: PairState, f: Seq<FactModel>, sim: Seq<Seq<bool>>, i: int, end: int, strategy: Seq<char>)
    requires
        forall|k: int| 0 <= k < st.1.len() ==> {
            let c = #[trigger] st.1[k];
            (c.2, c.3) == fact_pick(f, c.0, c.1, strategy)
        },
    ensures
        forall|k: int| 0 <= k < pair_row(st, f, sim, i, end, strategy).1.len() ==> {
            let c = #[trigger] pair_row(st, f, sim, i, end, strategy).1[k];
            (c.2, c.3) == fact_pick(f, c.0, c.1, strategy)
        },
    decreases end - i,
{
    if end > i + 1 {
        lemma_row_picked(st, f, sim, i, end - 1, strategy);
        let prev = pair_row(st, f, sim, i, end - 1, strategy);
        let next = pair_step(prev, f, sim, i, end - 1, strategy);
        assert forall|k: int| 0 <= k < next.1.len() implies {
            let c = #[trigger] next.1[k];
            (c.2, c.3) == fact_pick(f, c.0, c.1, strategy)
        } by {
            if k < prev.1.len() {
                assert(next.1[k] == prev.1[k]);
            }
        }
    }
}

/// Choosing by recency never lets the earlier-starting item win: the loser starts no
/// later than the winner.
proof fn lemma_recency_pick<A>(a: A, b: A, a_from: Seq<char>, b_from: Seq<char>)
    ensures
        ({
            let (w, l) = recency_pick(a, b, a_from, b_from);
            let (wf, lf) = recency_pick(a_from, b_from, a_from, b_from);
            &&& (w == a && l == b && wf == a_from && lf == b_from) || (w == b && l == a && wf == b_from && lf == a_from)
            &&& seq_le(lf, wf)
        }),
{
    crate::graph::lemma_seq_lt_total(b_from, a_from);
}

/// Under any strategy other than "confidence", a graph conflict is settled by recency: the
/// superseded version never started after the version that stays.
pub proof fn law_recency_keeps_latest_relation(edges: Seq<EdgeModel>, scope: MemoryScope, excl: Seq<Seq<char>>, strategy: Seq<char>)
    requires
        strategy != "confidence"@,
    ensures
        forall|k: int| 0 <= k < conflict_pairs(edges, scope, excl).len() ==> {
            let p = #[trigger] conflict_pairs(edges, scope, excl)[k];
            seq_le(pick(p.0, p.1, strategy).1.valid_from, pick(p.0, p.1, strategy).0.valid_from)
        },
{
    assert forall|k: int| 0 <= k < conflict_pairs(edges, scope, excl).len() implies {
        let p = #[trigger] conflict_pairs(edges, scope, excl)[k];
        seq_le(pick(p.0, p.1, strategy).1.valid_from, pick(p.0, p.1, strategy).0.valid_from)
    } by {
        let p = conflict_pairs(edges, scope, excl)[k];
        lemma_recency_pick(p.0, p.1, p.0.valid_from, p.1.valid_from);
    }
}

/// Under any strategy other than "confidence" and "importance", a semantic conflict is
/// settled by recency: the losing fact never started after the winning one.
pub proof fn law_recency_keeps_latest_fact(f: Seq<FactModel>, sim: Seq<Seq<bool>>, strategy: Seq<char>)
    requires
        strategy != "confidence"@,
        strategy != "importance"@,
    ensures
        forall|k: int| 0 <= k < pair_rows(f, sim, f.len() as int, strategy).1.len() ==> {
            let c = #[trigger] pair_rows(f, sim, f.len() as int, strategy).1[k];
            seq_le(f[c.3].valid_from, f[c.2].valid_from)
        },
{
    lemma_pairs_picked(f, sim, f.len() as int, strategy);
    assert forall|k: int| 0 <= k < pair_rows(f, sim, f.len() as int, strategy).1.len() implies {
        let c = #[trigger] pair_rows(f, sim, f.len() as int, strategy).1[k];
        seq_le(f[c.3].valid_from, f[c.2].valid_from)
    } by {
        let c = pair_rows(f, sim, f.len() as int, strategy).1[k];
        lemma_recency_pick(c.0, c.1, f[c.0].valid_from, f[c.1].valid_from);
    }
}

proof fn lemma_filter_keeps(s: Seq<EdgeModel>, f: spec_fn(EdgeModel) -> bool, p: spec_fn(EdgeModel) -> bool)
    requires
        forall|i: int| 0 <= i < s.len() ==> p(#[trigger] s[i]),
    ensures
        forall|i: int| 0 <= i < s.filter(f).len() ==> p(#[trigger] s.filter(f)[i]),
    decreases s.len(),
{
    reveal(Seq::filter);
    if s.len() > 0 {
        let d = s.drop_last();
        assert forall|i: int| 0 <= i < d.len() implies p(#[trigger] d[i]) by {
            assert(d[i] == s[i]);
        }
        lemma_filter_keeps(d, f, p);
        assert(p(s[s.len() - 1]));
        assert forall|i: int| 0 <= i < s.filter(f).len() implies p(#[trigger] s.filter(f)[i]) by {
            if i < d.filter(f).len() {
                assert(s.filter(f)[i] == d.filter(f)[i]);
            }
        }
    }
}

/// The versions of a conflicting pair come from its group.
proof fn lemma_group_pairs_keep(g: Seq<EdgeModel>, p: spec_fn(EdgeModel) -> bool)
    requires
        forall|i: int| 0 <= i < g.len() ==> p(#[trigger] g[i]),
    ensures
        forall|k: int| 0 <= k < group_pairs(g).len() ==> p((#[trigger] group_pairs(g)[k]).0) && p(group_pairs(g)[k].1),
    decreases g.len(),
{
    if g.len() > 0 {
        let rest = g.drop_first();
        assert forall|i: int| 0 <= i < rest.len() implies p(#[trigger] rest[i]) by {
            assert(rest[i] == g[i + 1]);
        }
        lemma_group_pairs_keep(rest, p);
        lemma_filter_keeps(rest, differs_from(g[0]), p);
        let a = rest.filter(differs_from(g[0])).map_values(paired_with(g[0]));
        assert(p(g[0]));
        assert forall|k: int| 0 <= k < group_pairs(g).len() implies p((#[trigger] group_pairs(g)[k]).0) && p(group_pairs(g)[k].1) by {
            if k < a.len() {
                assert(group_pairs(g)[k] == a[k]);
            } else {
                assert(group_pairs(g)[k] == group_pairs(rest)[k - a.len()]);
            }
        }
    }
}

proof fn lemma_pairs_over_keep(es: Seq<EdgeModel>, keys: Seq<(Seq<char>, Seq<char>)>, p: spec_fn(EdgeModel) -> bool)
    requires
        forall|i: int| 0 <= i < es.len() ==> p(#[trigger] es[i]),
    ensures
        forall|k: int| 0 <= k < pairs_over(es, keys).len() ==> p((#[trigger] pairs_over(es, keys)[k]).0) && p(pairs_over(es, keys)[k].1),
    decreases keys.len(),
{
    if keys.len() > 0 {
        lemma_pairs_over_keep(es, keys.drop_last(), p);
        let g = es.filter(in_group(keys.last()));
        lemma_filter_keeps(es, in_group(keys.last()), p);
        lemma_group_pairs_keep(g, p);
        let a = pairs_over(es, keys.drop_last());
        assert forall|k: int| 0 <= k < pairs_over(es, keys).len() implies p((#[trigger] pairs_over(es, keys)[k]).0) && p(pairs_over(es, keys)[k].1) by {
            if k < a.len() {
                assert(pairs_over(es, keys)[k] == a[k]);
            } else {
                assert(pairs_over(es, keys)[k] == group_pairs(g)[k - a.len()]);
            }
        }
    }
}

/// What graph conflict resolution reports: only relations of an exclusive type, active
/// and in reach of the scope, ever conflict; a dry run marks no conflict resolved, and a
/// live run marks each one resolved.  (That a dry run leaves the graph as it was is
/// stated by `resolve_graph_conflicts_at` itself.)
pub proof fn law_conflict_report(edges: Seq<EdgeModel>, scope: MemoryScope, excl: Seq<Seq<char>>, strategy: Seq<char>)
    ensures
        forall|k: int| 0 <= k < conflict_pairs(edges, scope, excl).len() ==> {
            let p = #[trigger] conflict_pairs(edges, scope, excl)[k];
            &&& excl.contains(p.0.relation_type) && excl.contains(p.1.relation_type)
            &&& traversable(scope)(p.0) && traversable(scope)(p.1)
            &&& !action_of(p.0, p.1, strategy, true).resolved
            &&& action_of(p.0, p.1, strategy, false).resolved
        },
{
    let es = edges.filter(candidate(scope, excl));
    assert forall|i: int| 0 <= i < es.len() implies candidate(scope, excl)(#[trigger] es[i]) by {
        edges.lemma_filter_pred(candidate(scope, excl), i);
    }
    lemma_pairs_over_keep(es, group_keys(es), candidate(scope, excl));
}

/// Under "confidence" a graph conflict between versions of different confidence is won
/// by the more confident version.
pub proof fn law_confidence_prefers_confident_relation(a: EdgeModel, b: EdgeModel)
    requires
        a.confidence_ppm != b.confidence_ppm,
    ensures
        pick(a, b, "confidence"@).0.confidence_ppm > pick(a, b, "confidence"@).1.confidence_ppm,
        (pick(a, b, "confidence"@) == (a, b)) || (pick(a, b, "confidence"@) == (b, a)),
{
}

/// Under "confidence" or "importance", a semantic conflict between facts of different
/// importance is won by the more important fact, and lost by the other.
pub proof fn law_importance_prefers_important_fact(f: Seq<FactModel>, sim: Seq<Seq<bool>>, strategy: Seq<char>)
    requires
        strategy == "confidence"@ || strategy == "importance"@,
    ensures
        forall|k: int| 0 <= k < pair_rows(f, sim, f.len() as int, strategy).1.len() ==> {
            let c = #[trigger] pair_rows(f, sim, f.len() as int, strategy).1[k];
            f[c.0].importance != f[c.1].importance ==> {
                &&& f[c.2].importance > f[c.3].importance
                &&& (c.2 == c.0 && c.3 == c.1) || (c.2 == c.1 && c.3 == c.0)
            }
        },
{
    lemma_pairs_picked(f, sim, f.len() as int, strategy);
    lemma_pair_rows_ok(f, sim, f.len() as int, strategy);
}

} // verus!
