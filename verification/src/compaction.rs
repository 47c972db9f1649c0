//! Memory compaction: the integer side of decay (how connected a fact is in the graph) and
//! the consolidation of clusters of similar facts into their most important member.
use vstd::prelude::*;
use crate::graph::{GraphMemory, NodeModel, EdgeModel, NodeRow, EdgeRow, node_views, edge_views, active, lemma_filter_push};
use crate::scope::{MemoryScope, reachable, is_reachable};
use crate::dedup::{SemanticDedup, merged};
use crate::fusion::lower;
use crate::text::{contains_seq, contains_str, str_eq, owned};
use crate::recall::string_views;

verus! {

pub open spec fn touches(name: Seq<char>, scope: MemoryScope) -> spec_fn(EdgeModel) -> bool {
    |e: EdgeModel| (e.from == name || e.to == name) && active(e) && reachable(scope, e.owner)
}

/// The active relation versions in reach of `scope` that touch entity `name`.
pub open spec fn touching_count(edges: Seq<EdgeModel>, name: Seq<char>, scope: MemoryScope) -> int {
    edges.filter(touches(name, scope)).len() as int
}

/// How connected a fact is: for every entity row in reach of `scope` whose lowercased
/// name occurs in the lowercased text, the active relation versions in reach touching
/// that name.
pub open spec fn edge_count(nodes: Seq<NodeModel>, edges: Seq<EdgeModel>, text: Seq<char>, scope: MemoryScope) -> int
    decreases nodes.len(),
{
    if nodes.len() == 0 {
        0
    } else {
        let n = nodes.last();
        edge_count(nodes.drop_last(), edges, text, scope)
            + (if reachable(scope, n.owner) && contains_seq(lower(text), lower(n.name)) { touching_count(edges, n.name, scope) } else { 0 })
    }
}

/// A fact as compaction reads it; `importance_ppm` is in millionths.
#[derive(Debug, Clone)]
pub struct CompactFact {
    pub node_id: String,
    pub raw_text: String,
    pub importance_ppm: u32,
}

pub struct CompactModel {
    pub node_id: Seq<char>,
    pub raw_text: Seq<char>,
    pub importance: int,
}

impl CompactFact {
    pub open spec fn view(&self) -> CompactModel {
        CompactModel { node_id: self.node_id@, raw_text: self.raw_text@, importance: self.importance_ppm as int }
    }
}

pub open spec fn compact_views(s: Seq<CompactFact>) -> Seq<CompactModel> {
    s.map_values(|f: CompactFact| f.view())
}

/// A cluster of similar facts consolidated into its winner: the losers, and the text the
/// winner ends with.
#[derive(Debug, Clone)]
pub struct ClusterPlan {
    pub winner: usize,
    pub losers: Vec<usize>,
    pub merged_text: String,
}

pub struct ClusterModel {
    pub winner: int,
    pub losers: Seq<int>,
    pub merged_text: Seq<char>,
}

impl ClusterPlan {
    pub open spec fn view(&self) -> ClusterModel {
        ClusterModel { winner: self.winner as int, losers: self.losers@.map_values(|i: usize| i as int), merged_text: self.merged_text@ }
    }
}

/// The cluster of fact `i`: itself, then every later fact not yet visited that is similar
/// to it, among the facts before `end`.
pub open spec fn members(f: Seq<CompactModel>, sim: Seq<Seq<bool>>, visited: Seq<Seq<char>>, i: int, end: int) -> Seq<int>
    decreases end - i,
{
    if end <= i + 1 {
        seq![i]
    } else {
        let m = members(f, sim, visited, i, end - 1);
        if !visited.contains(f[end - 1].node_id) && sim[i][end - 1] { m.push(end - 1) } else { m }
    }
}

/// The winner of a cluster over its first `k` members: the first member whose
/// importance exceeds every earlier one's and zero; the first member when none does.
pub open spec fn winner_scan(f: Seq<CompactModel>, ms: Seq<int>, k: int) -> (int, int)
    decreases k,
{
    if k <= 0 {
        (ms[0], 0)
    } else {
        let (w, best) = winner_scan(f, ms, k - 1);
        if f[ms[k - 1]].importance > best { (ms[k - 1], f[ms[k - 1]].importance) } else { (w, best) }
    }
}

pub open spec fn not_index(w: int) -> spec_fn(int) -> bool {
    |i: int| i != w
}

/// The winner's text merged with each loser's in turn (`SemanticDedup::merge_facts`).
pub open spec fn merged_over(f: Seq<CompactModel>, start: Seq<char>, losers: Seq<int>) -> Seq<char>
    decreases losers.len(),
{
    if losers.len() == 0 {
        start
    } else {
        merged(merged_over(f, start, losers.drop_last()), f[losers.last()].raw_text)
    }
}

pub open spec fn loser_ids(f: Seq<CompactModel>, losers: Seq<int>) -> Seq<Seq<char>> {
    losers.map_values(|i: int| f[i].node_id)
}

/// The facts visited so far (by id) and the clusters found.
pub type PlanState = (Seq<Seq<char>>, Seq<ClusterModel>);

/// Visiting fact `i`: skipped when already visited; otherwise its cluster, when it has
/// at least two members, is consolidated into its winner and its losers are visited;
/// then `i` itself is visited.
pub open spec fn plan_step(st: PlanState, f: Seq<CompactModel>, sim: Seq<Seq<bool>>, i: int) -> PlanState {
    if st.0.contains(f[i].node_id) {
        st
    } else {
        let ms = members(f, sim, st.0, i, f.len() as int);
        if ms.len() >= 2 {
            let w = winner_scan(f, ms, ms.len() as int).0;
            let ls = ms.filter(not_index(w));
            let c = ClusterModel { winner: w, losers: ls, merged_text: merged_over(f, f[w].raw_text, ls) };
            ((st.0 + loser_ids(f, ls)).push(f[i].node_id), st.1.push(c))
        } else {
            (st.0.push(f[i].node_id), st.1)
        }
    }
}

pub open spec fn plan_upto(f: Seq<CompactModel>, sim: Seq<Seq<bool>>, end: int) -> PlanState
    decreases end,
{
    if end <= 0 {
        (Seq::empty(), Seq::empty())
    } else {
        plan_step(plan_upto(f, sim, end - 1), f, sim, end - 1)
    }
}


/// Every loser of the clusters, cluster by cluster.
pub open spec fn all_losers(cs: Seq<ClusterModel>) -> Seq<int>
    decreases cs.len(),
{
    if cs.len() == 0 {
        Seq::empty()
    } else {
        all_losers(cs.drop_last()) + cs.last().losers
    }
}

pub open spec fn distinct_ids(f: Seq<CompactModel>) -> bool {
    forall|a: int, b: int| 0 <= a < b < f.len() ==> f[a].node_id != f[b].node_id
}

pub open spec fn increasing(s: Seq<int>) -> bool {
    forall|a: int, b: int| 0 <= a < b < s.len() ==> s[a] < s[b]
}

/// What holds of a compaction plan so far: every loser is a fact whose id has been
/// visited, no fact has lost twice, and no winner is among the losers up to its cluster.
pub open spec fn plan_inv(f: Seq<CompactModel>, st: PlanState) -> bool {
    let ls = all_losers(st.1);
    &&& forall|t: int| 0 <= t < ls.len() ==> 0 <= #[trigger] ls[t] < f.len() && st.0.contains(f[ls[t]].node_id)
    &&& ls.no_duplicates()
    &&& forall|q: int| 0 <= q < st.1.len() ==> !all_losers(st.1.take(q + 1)).contains(#[trigger] st.1[q].winner)
}

/// A cluster starts at its fact, goes up strictly, stays before `end`, and holds no
/// visited fact but possibly its first.
proof fn lemma_members_shape(f: Seq<CompactModel>, sim: Seq<Seq<bool>>, v: Seq<Seq<char>>, i: int, end: int)
    requires
        0 <= i < end,
    ensures
        members(f, sim, v, i, end).len() >= 1,
        members(f, sim, v, i, end)[0] == i,
        increasing(members(f, sim, v, i, end)),
        forall|k: int| 0 <= k < members(f, sim, v, i, end).len() ==> i <= #[trigger] members(f, sim, v, i, end)[k] < end,
        forall|k: int| 0 < k < members(f, sim, v, i, end).len() ==> !v.contains(f[#[trigger] members(f, sim, v, i, end)[k]].node_id),
    decreases end - i,
{
    if end > i + 1 {
        lemma_members_shape(f, sim, v, i, end - 1);
    }
}

/// Filtering keeps a sequence increasing.
proof fn lemma_filter_increasing(s: Seq<int>, p: spec_fn(int) -> bool)
    requires
        increasing(s),
    ensures
        increasing(s.filter(p)),
    decreases s.len(),
{
    if s.len() > 0 {
        let d = s.drop_last();
        assert(increasing(d));
        lemma_filter_increasing(d, p);
        assert(d.push(s.last()) =~= s);
        lemma_filter_push(d, s.last(), p);
        let fd = d.filter(p);
        assert forall|t: int| 0 <= t < fd.len() implies #[trigger] fd[t] < s.last() by {
            assert(fd.contains(fd[t]));
            d.lemma_filter_contains_rev(p, fd[t]);
        }
    }
}

/// The winner of a nonempty cluster is one of its members.
proof fn lemma_winner_member(f: Seq<CompactModel>, ms: Seq<int>, k: int)
    requires
        ms.len() >= 1,
        0 <= k <= ms.len(),
    ensures
        ms.contains(winner_scan(f, ms, k).0),
    decreases k,
{
    if k <= 0 {
        assert(ms[0] == winner_scan(f, ms, k).0);
    } else {
        lemma_winner_member(f, ms, k - 1);
        if f[ms[k - 1]].importance > winner_scan(f, ms, k - 1).1 {
            assert(ms[k - 1] == winner_scan(f, ms, k).0);
        }
    }
}

proof fn lemma_no_dup_increasing(s: Seq<int>)
    requires
        increasing(s),
    ensures
        s.no_duplicates(),
{
    assert forall|a: int, b: int| 0 <= a < s.len() && 0 <= b < s.len() && a != b implies s[a] != s[b] by {
        if a < b {
            assert(s[a] < s[b]);
        } else {
            assert(s[b] < s[a]);
        }
    }
}

/// One step of planning keeps the plan invariant.
proof fn lemma_plan_step_inv(st: PlanState, f: Seq<CompactModel>, sim: Seq<Seq<bool>>, i: int)
    requires
        plan_inv(f, st),
        distinct_ids(f),
        0 <= i < f.len(),
    ensures
        plan_inv(f, plan_step(st, f, sim, i)),
{
    if !st.0.contains(f[i].node_id) {
        let n = f.len() as int;
        let ms = members(f, sim, st.0, i, n);
        lemma_members_shape(f, sim, st.0, i, n);
        let old_ls = all_losers(st.1);
        if ms.len() >= 2 {
            let w = winner_scan(f, ms, ms.len() as int).0;
            let ls = ms.filter(not_index(w));
            let c = ClusterModel { winner: w, losers: ls, merged_text: merged_over(f, f[w].raw_text, ls) };
            let v2 = (st.0 + loser_ids(f, ls)).push(f[i].node_id);
            let cs2 = st.1.push(c);
            assert(plan_step(st, f, sim, i) == (v2, cs2));
            assert(cs2.drop_last() =~= st.1);
            assert(all_losers(cs2) == old_ls + ls);
            // every member is unvisited
            assert forall|k: int| 0 <= k < ms.len() implies !st.0.contains(f[#[trigger] ms[k]].node_id) by {
                if k == 0 {
                    assert(ms[0] == i);
                }
            }
            lemma_winner_member(f, ms, ms.len() as int);
            lemma_filter_increasing(ms, not_index(w));
            lemma_no_dup_increasing(ls);
            let new_ls = old_ls + ls;
            assert forall|t: int| 0 <= t < new_ls.len() implies 0 <= #[trigger] new_ls[t] < f.len() && v2.contains(f[new_ls[t]].node_id) by {
                if t < old_ls.len() {
                    assert(new_ls[t] == old_ls[t]);
                    let x = f[old_ls[t]].node_id;
                    let j = choose|j: int| 0 <= j < st.0.len() && st.0[j] == x;
                    assert(v2[j] == x);
                } else {
                    let y = ls[t - old_ls.len()];
                    assert(new_ls[t] == y);
                    assert(ls.contains(y));
                    ms.lemma_filter_contains_rev(not_index(w), y);
                    let j = t - old_ls.len();
                    assert(loser_ids(f, ls)[j] == f[y].node_id);
                    assert(v2[st.0.len() + j] == f[y].node_id);
                }
            }
            assert forall|a: int, b: int| 0 <= a < old_ls.len() && 0 <= b < ls.len() implies old_ls[a] != ls[b] by {
                assert(ls.contains(ls[b]));
                ms.lemma_filter_contains_rev(not_index(w), ls[b]);
                let k = choose|k: int| 0 <= k < ms.len() && ms[k] == ls[b];
                assert(!st.0.contains(f[ms[k]].node_id));
                assert(st.0.contains(f[old_ls[a]].node_id));
            }
            vstd::seq_lib::lemma_no_dup_in_concat(old_ls, ls);
            assert forall|q: int| 0 <= q < cs2.len() implies !all_losers(cs2.take(q + 1)).contains(#[trigger] cs2[q].winner) by {
                if q < st.1.len() {
                    assert(cs2.take(q + 1) =~= st.1.take(q + 1));
                    assert(cs2[q] == st.1[q]);
                } else {
                    assert(cs2.take(q + 1) =~= cs2);
                    assert(cs2[q] == c);
                    let k = choose|k: int| 0 <= k < ms.len() && ms[k] == w;
                    assert(!st.0.contains(f[w].node_id));
                    if new_ls.contains(w) {
                        let t = choose|t: int| 0 <= t < new_ls.len() && new_ls[t] == w;
                        if t < old_ls.len() {
                            assert(new_ls[t] == old_ls[t]);
                            assert(st.0.contains(f[old_ls[t]].node_id));
                        } else {
                            assert(new_ls[t] == ls[t - old_ls.len()]);
                            ms.lemma_filter_pred(not_index(w), t - old_ls.len());
                        }
                    }
                }
            }
        } else {
            let v2 = st.0.push(f[i].node_id);
            assert(plan_step(st, f, sim, i) == (v2, st.1));
            assert forall|t: int| 0 <= t < old_ls.len() implies 0 <= #[trigger] old_ls[t] < f.len() && v2.contains(f[old_ls[t]].node_id) by {
                let x = f[old_ls[t]].node_id;
                let j = choose|j: int| 0 <= j < st.0.len() && st.0[j] == x;
                assert(v2[j] == x);
            }
        }
    }
}

/// No fact is consolidated twice, and no winner was consolidated before: over the whole
/// plan of a compaction pass (facts with distinct ids), the losers of all clusters are
/// distinct facts, and no cluster's winner is a loser of that cluster or an earlier one.
pub proof fn law_no_fact_consolidated_twice(f: Seq<CompactModel>, sim: Seq<Seq<bool>>, end: int)
    requires
        distinct_ids(f),
        0 <= end <= f.len(),
    ensures
        plan_inv(f, plan_upto(f, sim, end)),
        all_losers(plan_upto(f, sim, end).1).no_duplicates(),
    decreases end,
{
    if end > 0 {
        law_no_fact_consolidated_twice(f, sim, end - 1);
        lemma_plan_step_inv(plan_upto(f, sim, end - 1), f, sim, end - 1);
    } else {
        assert(all_losers(plan_upto(f, sim, end).1) =~= Seq::<int>::empty());
    }
}


fn lower_exec(s: &str) -> (r: String)
    ensures
        r@ == lower(s@),
{
    s.to_lowercase()
}

fn touching_count_exec(rows: &Vec<EdgeRow>, name: &String, scope: &MemoryScope) -> (c: u64)
    ensures
        c == touching_count(edge_views(rows@), name@, *scope),
{
    let ghost sv = edge_views(rows@);
    let ghost p = touches(name@, *scope);
    let mut c: u64 = 0;
    let mut i: usize = 0;
    while i < rows.len()
        invariant
            i <= rows.len(),
            sv == edge_views(rows@),
            p == touches(name@, *scope),
            c == sv.take(i as int).filter(p).len(),
            c <= i,
        decreases rows.len() - i,
    {
        let e = &rows[i];
        proof {
            assert(sv.take(i + 1) =~= sv.take(i as int).push(e.view()));
            lemma_filter_push(sv.take(i as int), e.view(), p);
            sv.take(i as int).lemma_filter_len(p);
        }
        if (str_eq(e.from.as_str(), name.as_str()) || str_eq(e.to.as_str(), name.as_str())) && e.valid_until.is_none() && is_reachable(scope, &e.owner) {
            c += 1;
        }
        i += 1;
    }
    assert(sv.take(rows.len() as int) =~= sv);
    c
}

pub struct MemoryCompactor;

impl MemoryCompactor {
    /// How connected the fact `text` is in the graph (see `edge_count`), saturating at
    /// `u64::MAX`.
    pub fn edge_count(graph: &GraphMemory, text: &str, scope: &MemoryScope) -> (c: u64)
        ensures
            c == (if edge_count(graph.nodes(), graph.edges(), text@, *scope) > u64::MAX { u64::MAX as int }
                else { edge_count(graph.nodes(), graph.edges(), text@, *scope) }),
    {
        let nodes = graph.node_rows();
        let edges = graph.edge_rows();
        let lt = lower_exec(text);
        let ghost nv = graph.nodes();
        let mut c: u64 = 0;
        let mut i: usize = 0;
        while i < nodes.len()
            invariant
                i <= nodes.len(),
                nv == node_views(nodes@),
                edge_views(edges@) == graph.edges(),
                lt@ == lower(text@),
                0 <= edge_count(nv.take(i as int), graph.edges(), text@, *scope),
                c == (if edge_count(nv.take(i as int), graph.edges(), text@, *scope) > u64::MAX { u64::MAX as int }
                    else { edge_count(nv.take(i as int), graph.edges(), text@, *scope) }),
            decreases nodes.len() - i,
        {
            let n = &nodes[i];
            proof {
                assert(nv.take(i + 1).drop_last() =~= nv.take(i as int));
                assert(nv.take(i + 1).last() == n.view());
            }
            if is_reachable(scope, &n.owner) {
                let ln = lower_exec(n.name.as_str());
                if contains_str(lt.as_str(), ln.as_str()) {
                    let k = touching_count_exec(edges, &n.name, scope);
                    c = if c > u64::MAX - k { u64::MAX } else { c + k };
                }
            }
            i += 1;
        }
        assert(nv.take(nodes.len() as int) =~= nv);
        c
    }
}


pub open spec fn bool_rows(sim: Seq<Vec<bool>>) -> Seq<Seq<bool>> {
    sim.map_values(|r: Vec<bool>| r@)
}

pub open spec fn idx_ints(s: Seq<usize>) -> Seq<int> {
    s.map_values(|i: usize| i as int)
}

fn visited_contains(v: &Vec<String>, x: &String) -> (b: bool)
    ensures
        b == string_views(v@).contains(x@),
{
    let mut i: usize = 0;
    while i < v.len()
        invariant
            i <= v.len(),
            forall|k: int| 0 <= k < i ==> string_views(v@)[k] != x@,
        decreases v.len() - i,
    {
        assert(string_views(v@)[i as int] == v@[i as int]@);
        if str_eq(v[i].as_str(), x.as_str()) {
            return true;
        }
        i += 1;
    }
    false
}

impl MemoryCompactor {
    fn members_exec(facts: &Vec<CompactFact>, similar: &Vec<Vec<bool>>, visited: &Vec<String>, i: usize) -> (r: Vec<usize>)
        requires
            i < facts.len(),
            similar.len() == facts.len(),
            forall|k: int| 0 <= k < similar.len() ==> #[trigger] similar@[k].len() == facts.len(),
        ensures
            idx_ints(r@) == members(compact_views(facts@), bool_rows(similar@), string_views(visited@), i as int, facts.len() as int),
            r.len() >= 1,
            r@[0] == i,
            forall|k: int| 0 <= k < r.len() ==> i <= #[trigger] r@[k] < facts.len(),
    {
        let ghost f = compact_views(facts@);
        let ghost sm = bool_rows(similar@);
        let mut r: Vec<usize> = vec![i];
        assert(idx_ints(r@) =~= seq![i as int]);
        let mut j: usize = i + 1;
        while j < facts.len()
            invariant
                i < facts.len(),
                i + 1 <= j <= facts.len(),
                f == compact_views(facts@),
                sm == bool_rows(similar@),
                similar.len() == facts.len(),
                forall|k: int| 0 <= k < similar.len() ==> #[trigger] similar@[k].len() == facts.len(),
                idx_ints(r@) == members(f, sm, string_views(visited@), i as int, j as int),
                r.len() >= 1,
                r@[0] == i,
                forall|k: int| 0 <= k < r.len() ==> i <= #[trigger] r@[k] < j,
            decreases facts.len() - j,
        {
            proof {
                assert(f[j as int] == facts@[j as int].view());
                assert(sm[i as int] == similar@[i as int]@);
                assert(similar@[i as int].len() == facts.len());
            }
            let ghost before = r@;
            if !visited_contains(visited, &facts[j].node_id) && similar[i][j] {
                r.push(j);
                assert(idx_ints(r@) =~= idx_ints(before).push(j as int));
            }
            j += 1;
        }
        r
    }

    fn winner_exec(facts: &Vec<CompactFact>, ms: &Vec<usize>) -> (w: usize)
        requires
            ms.len() >= 1,
            forall|k: int| 0 <= k < ms.len() ==> #[trigger] ms@[k] < facts.len(),
        ensures
            w == winner_scan(compact_views(facts@), idx_ints(ms@), ms.len() as int).0,
            w < facts.len(),
    {
        let ghost f = compact_views(facts@);
        let ghost m = idx_ints(ms@);
        let mut w: usize = ms[0];
        let mut best: u32 = 0;
        let mut k: usize = 0;
        while k < ms.len()
            invariant
                k <= ms.len(),
                ms.len() >= 1,
                f == compact_views(facts@),
                m == idx_ints(ms@),
                forall|t: int| 0 <= t < ms.len() ==> #[trigger] ms@[t] < facts.len(),
                (w as int, best as int) == winner_scan(f, m, k as int),
                w < facts.len(),
            decreases ms.len() - k,
        {
            let idx = ms[k];
            assert(f[m[k as int]] == facts@[idx as int].view());
            if facts[idx].importance_ppm > best {
                best = facts[idx].importance_ppm;
                w = idx;
            }
            k += 1;
        }
        w
    }

    /// The clusters of one compaction pass over `facts`, given which pairs are similar
    /// (`similar[i][j]` for `i < j`, at or above the cluster threshold): facts in order, each
    /// not yet visited gathers the later unvisited facts similar to it; a cluster of at
    /// least two is consolidated into its most important member (the earliest on a tie,
    /// the first when none has positive importance), whose text absorbs each loser's in
    /// turn (see `SemanticDedup::merge_facts`).
    pub fn plan_clusters(facts: &Vec<CompactFact>, similar: &Vec<Vec<bool>>) -> (r: Vec<ClusterPlan>)
        requires
            similar.len() == facts.len(),
            forall|k: int| 0 <= k < similar.len() ==> #[trigger] similar@[k].len() == facts.len(),
        ensures
            r@.map_values(|c: ClusterPlan| c.view()) == plan_upto(compact_views(facts@), bool_rows(similar@), facts.len() as int).1,
    {
        let ghost f = compact_views(facts@);
        let ghost sm = bool_rows(similar@);
        let mut visited: Vec<String> = Vec::new();
        let mut out: Vec<ClusterPlan> = Vec::new();
        assert(string_views(visited@) =~= Seq::<Seq<char>>::empty());
        assert(out@.map_values(|c: ClusterPlan| c.view()) =~= Seq::<ClusterModel>::empty());
        let mut i: usize = 0;
        while i < facts.len()
            invariant
                i <= facts.len(),
                f == compact_views(facts@),
                sm == bool_rows(similar@),
                similar.len() == facts.len(),
                forall|k: int| 0 <= k < similar.len() ==> #[trigger] similar@[k].len() == facts.len(),
                (string_views(visited@), out@.map_values(|c: ClusterPlan| c.view())) == plan_upto(f, sm, i as int),
            decreases facts.len() - i,
        {
            assert(f[i as int] == facts@[i as int].view());
            if !visited_contains(&visited, &facts[i].node_id) {
                let ms = Self::members_exec(facts, similar, &visited, i);
                if ms.len() >= 2 {
                    let w = Self::winner_exec(facts, &ms);
                    let ghost m = idx_ints(ms@);
                    let ghost ls = m.filter(not_index(w as int));
                    let mut losers: Vec<usize> = Vec::new();
                    let mut text = facts[w].raw_text.clone();
                    let ghost v0 = string_views(visited@);
                    let mut k: usize = 0;
                    while k < ms.len()
                        invariant
                            k <= ms.len(),
                            w < facts.len(),
                            f == compact_views(facts@),
                            m == idx_ints(ms@),
                            forall|t: int| 0 <= t < ms.len() ==> i <= #[trigger] ms@[t] < facts.len(),
                            idx_ints(losers@) == m.take(k as int).filter(not_index(w as int)),
                            text@ == merged_over(f, f[w as int].raw_text, idx_ints(losers@)),
                            string_views(visited@) == v0 + loser_ids(f, idx_ints(losers@)),
                            forall|t: int| 0 <= t < losers.len() ==> #[trigger] losers@[t] < facts.len(),
                        decreases ms.len() - k,
                    {
                        let idx = ms[k];
                        proof {
                            assert(m.take(k + 1) =~= m.take(k as int).push(idx as int));
                            lemma_filter_push(m.take(k as int), idx as int, not_index(w as int));
                        }
                        if idx != w {
                            let ghost l0 = idx_ints(losers@);
                            let ghost vv = string_views(visited@);
                            losers.push(idx);
                            visited.push(facts[idx].node_id.clone());
                            text = SemanticDedup::merge_facts(text.as_str(), facts[idx].raw_text.as_str());
                            proof {
                                assert(idx_ints(losers@) =~= l0.push(idx as int));
                                assert(idx_ints(losers@).drop_last() =~= l0);
                                assert(f[idx as int] == facts@[idx as int].view());
                                assert(loser_ids(f, idx_ints(losers@)) =~= loser_ids(f, l0).push(f[idx as int].node_id));
                                assert(string_views(visited@) =~= vv.push(facts@[idx as int].node_id@));
                            }
                        }
                        k += 1;
                    }
                    assert(m.take(ms.len() as int) =~= m);
                    visited.push(facts[i].node_id.clone());
                    let ghost o0 = out@;
                    out.push(ClusterPlan { winner: w, losers, merged_text: text });
                    proof {
                        assert(out@.map_values(|c: ClusterPlan| c.view()) =~= o0.map_values(|c: ClusterPlan| c.view()).push(out@[o0.len() as int].view()));
                    }
                } else {
                    visited.push(facts[i].node_id.clone());
                }
            }
            proof {
                assert(string_views(visited@) =~= plan_upto(f, sm, i + 1).0);
            }
            i += 1;
        }
        out
    }
}


/// What a compaction did: facts archived by decay, facts merged into a cluster winner,
/// and a note per action joined by "; ".
#[derive(Debug, Clone)]
pub struct CompactionReport {
    pub removed_count: u32,
    pub merged_count: u32,
    pub details: String,
}

pub open spec fn consolidation_note(loser: Seq<char>, winner: Seq<char>) -> Seq<char> {
    "Consolidated fact '"@ + loser + "' into winner '"@ + winner + "'"@
}

impl MemoryCompactor {
    /// The notes for a consolidated cluster: one per loser, in order.
    pub fn consolidation_notes(facts: &Vec<CompactFact>, plan: &ClusterPlan) -> (r: Vec<String>)
        requires
            plan.winner < facts.len(),
            forall|k: int| 0 <= k < plan.losers.len() ==> #[trigger] plan.losers@[k] < facts.len(),
        ensures
            string_views(r@) == plan.losers@.map_values(|l: usize| consolidation_note(facts@[l as int].node_id@, facts@[plan.winner as int].node_id@)),
    {
        let ghost target = plan.losers@.map_values(|l: usize| consolidation_note(facts@[l as int].node_id@, facts@[plan.winner as int].node_id@));
        let mut r: Vec<String> = Vec::new();
        let mut k: usize = 0;
        while k < plan.losers.len()
            invariant
                k <= plan.losers.len(),
                plan.winner < facts.len(),
                forall|t: int| 0 <= t < plan.losers.len() ==> #[trigger] plan.losers@[t] < facts.len(),
                target == plan.losers@.map_values(|l: usize| consolidation_note(facts@[l as int].node_id@, facts@[plan.winner as int].node_id@)),
                string_views(r@) == target.take(k as int),
            decreases plan.losers.len() - k,
        {
            let l = plan.losers[k];
            let mut note = owned("Consolidated fact '");
            note.append(facts[l].node_id.as_str());
            note.append("' into winner '");
            note.append(facts[plan.winner].node_id.as_str());
            note.append("'");
            let ghost before = string_views(r@);
            r.push(note);
            proof {
                assert(string_views(r@) =~= before.push(target[k as int]));
                assert(target.take(k + 1) =~= target.take(k as int).push(target[k as int]));
            }
            k += 1;
        }
        assert(target.take(plan.losers.len() as int) =~= target);
        r
    }
}

impl MemoryCompactor {
    /// Whether applying a cluster plan rewrites its winner's text, which changes the facts
    /// that later plans were made from, so that clustering must start over: only in a live
    /// run, and only when the merged text differs from the winner's.
    pub fn rewrites_winner(facts: &Vec<CompactFact>, plan: &ClusterPlan, dry_run: bool) -> (b: bool)
        requires
            plan.winner < facts.len(),
        ensures
            b == (!dry_run && plan.merged_text@ != facts@[plan.winner as int].raw_text@),
    {
        !dry_run && !str_eq(plan.merged_text.as_str(), facts[plan.winner].raw_text.as_str())
    }
}

} // verus!
