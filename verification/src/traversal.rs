//! Multi-hop traversal over the active relations of the knowledge graph.
use vstd::prelude::*;
use petgraph::graph::DiGraph;
use crate::digraph::{digraph_nodes, digraph_edges, outgoing, digraph_new, digraph_add_node, digraph_add_edge, digraph_out, digraph_node_weight, digraph_edge_weight, first_to, is_walk, walk_between, unit_astar, opt_ints, digraph_shortest_path, digraph_find_edge};
use crate::text::owned;
use crate::graph::{GraphMemory, EdgeModel, active};
use crate::scope::{MemoryScope, reachable, is_reachable};
use crate::recall::string_views;
use crate::text::str_eq;

verus! {

/// One entity reached by a breadth-first traversal: its name, the type of the relation
/// that reached it, and its distance from the start.
#[derive(Debug, Clone)]
pub struct TraversalStep {
    pub entity_name: String,
    pub relation_type: String,
    pub depth: u32,
}

/// A path between two entities: the entity names and the relation types between them.
#[derive(Debug, Clone)]
pub struct PathResult {
    pub path: Vec<String>,
    pub relations: Vec<String>,
}

/// Why a path query failed.
#[derive(Debug)]
pub enum TraversalError {
    EntityNotFound(String),
    PathNotFound(String),
}

/// The relation versions traversals follow: active, and stored under an owner in reach
/// of the scope's stored form.
pub open spec fn traversable(scope: MemoryScope) -> spec_fn(EdgeModel) -> bool {
    |e: EdgeModel| active(e) && reachable(scope, e.owner)
}

/// The position of `x` in `s`, or -1.
pub open spec fn pos(s: Seq<Seq<char>>, x: Seq<char>) -> int
    decreases s.len(),
{
    if s.len() == 0 {
        -1
    } else if s[0] == x {
        0
    } else {
        let r = pos(s.drop_first(), x);
        if r < 0 { -1 } else { r + 1 }
    }
}

/// Building the traversal graph from relation versions in order: each endpoint gets a node
/// the first time it appears (source before target), and each version an edge between
/// the nodes of its endpoints, labelled with its type.
pub open spec fn build_fold(es: Seq<EdgeModel>) -> (Seq<Seq<char>>, Seq<(int, int, Seq<char>)>)
    decreases es.len(),
{
    if es.len() == 0 {
        (Seq::empty(), Seq::empty())
    } else {
        let (names, ies) = build_fold(es.drop_last());
        let e = es.last();
        let n1 = if names.contains(e.from) { names } else { names.push(e.from) };
        let n2 = if n1.contains(e.to) { n1 } else { n1.push(e.to) };
        (n2, ies.push((pos(n2, e.from), pos(n2, e.to), e.relation_type)))
    }
}

/// A traversal graph: petgraph's graph with one node per entity name.
pub struct TraversalGraph {
    g: DiGraph<String, String>,
    names: Vec<String>,
}

impl TraversalGraph {
    pub closed spec fn nodes(&self) -> Seq<Seq<char>> {
        digraph_nodes(self.g)
    }

    pub closed spec fn edges(&self) -> Seq<(int, int, Seq<char>)> {
        digraph_edges(self.g)
    }

    pub closed spec fn wf(&self) -> bool {
        &&& string_views(self.names@) == digraph_nodes(self.g)
        &&& forall|i: int| 0 <= i < digraph_edges(self.g).len() ==>
                0 <= #[trigger] digraph_edges(self.g)[i].0 < digraph_nodes(self.g).len()
                && 0 <= digraph_edges(self.g)[i].1 < digraph_nodes(self.g).len()
    }
}

proof fn lemma_outgoing_bounds(es: Seq<(int, int, Seq<char>)>, a: int, n: int)
    requires
        forall|i: int| 0 <= i < es.len() ==> 0 <= #[trigger] es[i].0 < n && 0 <= es[i].1 < n,
    ensures
        forall|k: int| 0 <= k < outgoing(es, a).len() ==> {
            let p = #[trigger] outgoing(es, a)[k];
            0 <= p.0 < es.len() && p.1 == es[p.0].1 && es[p.0].0 == a && 0 <= p.1 < n
        },
    decreases es.len(),
{
    if es.len() > 0 {
        let p = es.drop_last();
        assert forall|i: int| 0 <= i < p.len() implies 0 <= #[trigger] p[i].0 < n && 0 <= p[i].1 < n by {
            assert(p[i] == es[i]);
        }
        lemma_outgoing_bounds(p, a, n);
        let rest = outgoing(p, a);
        assert forall|k: int| 0 <= k < outgoing(es, a).len() implies {
            let q = #[trigger] outgoing(es, a)[k];
            0 <= q.0 < es.len() && q.1 == es[q.0].1 && es[q.0].0 == a && 0 <= q.1 < n
        } by {
            if es.last().0 == a {
                if k > 0 {
                    assert(outgoing(es, a)[k] == rest[k - 1]);
                    assert(es[rest[k - 1].0] == p[rest[k - 1].0]);
                } else {
                    assert(es.last() == es[es.len() - 1]);
                }
            } else {
                assert(outgoing(es, a)[k] == rest[k]);
                assert(es[rest[k].0] == p[rest[k].0]);
            }
        }
    }
}

proof fn lemma_pos_push(s: Seq<Seq<char>>, x: Seq<char>, y: Seq<char>)
    requires
        s.contains(y),
    ensures
        pos(s.push(x), y) == pos(s, y),
    decreases s.len(),
{
    if s[0] != y {
        assert(s.drop_first().contains(y)) by {
            let k = choose|k: int| 0 <= k < s.len() && s[k] == y;
            assert(s.drop_first()[k - 1] == y);
        }
        assert(s.push(x).drop_first() =~= s.drop_first().push(x));
        lemma_pos_push(s.drop_first(), x, y);
    }
}

proof fn lemma_pos(s: Seq<Seq<char>>, x: Seq<char>, j: int)
    requires
        0 <= j <= s.len(),
        forall|k: int| 0 <= k < j ==> s[k] != x,
    ensures
        j < s.len() && s[j] == x ==> pos(s, x) == j,
        j == s.len() ==> pos(s, x) == -1 && !s.contains(x),
    decreases j,
{
    if j > 0 {
        assert forall|k: int| 0 <= k < j - 1 implies s.drop_first()[k] != x by {
            assert(s.drop_first()[k] == s[k + 1]);
        }
        lemma_pos(s.drop_first(), x, j - 1);
    }
}

/// Where `x` is in `v`: the first index, as `pos` gives it.
fn position_in(v: &Vec<String>, x: &String) -> (r: Option<usize>)
    ensures
        match r {
            Some(i) => i < v.len() && pos(string_views(v@), x@) == i && string_views(v@)[i as int] == x@,
            None => pos(string_views(v@), x@) == -1 && !string_views(v@).contains(x@),
        },
{
    let mut i: usize = 0;
    while i < v.len()
        invariant
            i <= v.len(),
            forall|k: int| 0 <= k < i ==> string_views(v@)[k] != x@,
        decreases v.len() - i,
    {
        assert(string_views(v@)[i as int] == v@[i as int]@);
        if str_eq(v[i].as_str(), x.as_str()) {
            proof {
                lemma_pos(string_views(v@), x@, i as int);
            }
            return Some(i);
        }
        i += 1;
    }
    proof {
        lemma_pos(string_views(v@), x@, v.len() as int);
    }
    None
}

impl TraversalGraph {
    fn index_or_add(&mut self, x: &String) -> (r: usize)
        requires
            old(self).wf(),
            old(self).nodes().len() + 1 < u32::MAX,
        ensures
            final(self).wf(),
            final(self).nodes() == (if old(self).nodes().contains(x@) { old(self).nodes() } else { old(self).nodes().push(x@) }),
            final(self).edges() == old(self).edges(),
            r == pos(final(self).nodes(), x@),
            r < final(self).nodes().len(),
            final(self).nodes()[r as int] == x@,
    {
        match position_in(&self.names, x) {
            Some(i) => i,
            None => {
                let ghost before = self.nodes();
                let i = digraph_add_node(&mut self.g, x.clone());
                self.names.push(x.clone());
                proof {
                    assert(string_views(self.names@) =~= digraph_nodes(self.g));
                    assert forall|k: int| 0 <= k < before.len() implies self.nodes()[k] != x@ by {
                        assert(self.nodes()[k] == before[k]);
                    }
                    lemma_pos(self.nodes(), x@, before.len() as int);
                }
                i
            }
        }
    }

    /// The traversal graph of the relation versions active and in reach of `scope`.
    pub fn build(graph: &GraphMemory, scope: &MemoryScope) -> (r: Self)
        requires
            graph.edges().len() < 0x7fff_ffff,
        ensures
            r.wf(),
            (r.nodes(), r.edges()) == build_fold(graph.edges().filter(traversable(*scope))),
    {
        let rows = graph.edge_rows();
        let mut t = TraversalGraph { g: digraph_new(), names: Vec::new() };
        assert(string_views(t.names@) =~= digraph_nodes(t.g));
        let ghost es = graph.edges();
        let mut i: usize = 0;
        while i < rows.len()
            invariant
                i <= rows.len(),
                es == graph.edges(),
                crate::graph::edge_views(rows@) == es,
                rows.len() < 0x7fff_ffff,
                t.wf(),
                (t.nodes(), t.edges()) == build_fold(es.take(i as int).filter(traversable(*scope))),
                t.nodes().len() <= 2 * i,
                t.edges().len() <= i,
            decreases rows.len() - i,
        {
            let e = &rows[i];
            proof {
                assert(es.take(i + 1) =~= es.take(i as int).push(e.view()));
                crate::graph::lemma_filter_push(es.take(i as int), e.view(), traversable(*scope));
            }
            if e.valid_until.is_none() && is_reachable(scope, &e.owner) {
                let ghost f = es.take(i as int).filter(traversable(*scope));
                assert(f.push(e.view()).drop_last() =~= f);
                let ghost n0 = t.nodes();
                let ghost e0 = t.edges();
                let a = t.index_or_add(&e.from);
                let ghost n1 = t.nodes();
                let b = t.index_or_add(&e.to);
                let ghost n2 = t.nodes();
                proof {
                    lemma_pos_push(n1, e.to@, e.from@);
                    assert(n1.contains(e.from@)) by { assert(n1[a as int] == e.from@); }
                    assert(pos(n2, e.from@) == a);
                }
                digraph_add_edge(&mut t.g, a, b, e.relation_type.clone());
                proof {
                    assert(t.nodes() == n2);
                    assert forall|k: int| 0 <= k < t.edges().len() implies
                        0 <= #[trigger] t.edges()[k].0 < t.nodes().len() && 0 <= t.edges()[k].1 < t.nodes().len() by {
                        if k < e0.len() {
                            assert(t.edges()[k] == e0[k]);
                        }
                    }
                    assert(f.push(e.view()).last() == e.view());
                    assert(build_fold(f.push(e.view())) == (n2, e0.push((a as int, b as int, e.relation_type@))));
                }
            }
            i += 1;
        }
        assert(es.take(rows.len() as int) =~= es);
        t
    }
}


/// The search state of a breadth-first traversal: the nodes queued for the next level,
/// the nodes visited, and the steps recorded as (edge, node reached, depth).
pub type SearchState = (Seq<int>, Set<int>, Seq<(int, int, int)>);

/// Following the out-edge `p` = (edge, target) of a node at `depth`: a target not yet
/// visited is visited, queued and recorded at `depth + 1`.
pub open spec fn visit(s: SearchState, p: (int, int), depth: int) -> SearchState {
    if s.1.contains(p.1) {
        s
    } else {
        (s.0.push(p.1), s.1.insert(p.1), s.2.push((p.0, p.1, depth + 1)))
    }
}

/// Following out-edges in the order given.
pub open spec fn visit_all(s: SearchState, outs: Seq<(int, int)>, depth: int) -> SearchState
    decreases outs.len(),
{
    if outs.len() == 0 {
        s
    } else {
        visit(visit_all(s, outs.drop_last(), depth), outs.last(), depth)
    }
}

/// Expanding a frontier at `depth`: the out-edges of each of its nodes in turn.
pub open spec fn expand(s: SearchState, es: Seq<(int, int, Seq<char>)>, frontier: Seq<int>, depth: int) -> SearchState
    decreases frontier.len(),
{
    if frontier.len() == 0 {
        s
    } else {
        visit_all(expand(s, es, frontier.drop_last(), depth), outgoing(es, frontier.last()), depth)
    }
}

/// The steps of a breadth-first traversal from `frontier` at `depth`, level by level,
/// until `max_depth` is reached or a level is empty.
pub open spec fn levels(es: Seq<(int, int, Seq<char>)>, frontier: Seq<int>, visited: Set<int>, depth: int, max_depth: int) -> Seq<(int, int, int)>
    decreases max_depth - depth,
{
    if depth >= max_depth || frontier.len() == 0 {
        Seq::empty()
    } else {
        let s = expand((Seq::empty(), visited, Seq::empty()), es, frontier, depth);
        s.2 + levels(es, s.0, s.1, depth + 1, max_depth)
    }
}

/// The traversal graph of the relation versions that `scope` can traverse.
pub open spec fn traversal_graph(edges: Seq<EdgeModel>, scope: MemoryScope) -> (Seq<Seq<char>>, Seq<(int, int, Seq<char>)>) {
    build_fold(edges.filter(traversable(scope)))
}

/// What `bfs_traverse` reports: for each step, the name reached, the type of the relation
/// followed and the depth; nothing when `start` is not in the traversal graph.
pub open spec fn bfs_spec(edges: Seq<EdgeModel>, scope: MemoryScope, start: Seq<char>, max_depth: int) -> Seq<(Seq<char>, Seq<char>, int)> {
    let (names, es) = traversal_graph(edges, scope);
    let s = pos(names, start);
    if s < 0 {
        Seq::empty()
    } else {
        levels(es, seq![s], set![s], 0, max_depth).map_values(|t: (int, int, int)| (names[t.1], es[t.0].2, t.2))
    }
}

pub open spec fn ints(s: Seq<usize>) -> Seq<int> {
    s.map_values(|x: usize| x as int)
}

pub open spec fn marked(v: Seq<bool>) -> Set<int> {
    Set::new(|k: int| 0 <= k < v.len() && v[k])
}

pub open spec fn step_ints(s: Seq<(usize, usize, u32)>) -> Seq<(int, int, int)> {
    s.map_values(|t: (usize, usize, u32)| (t.0 as int, t.1 as int, t.2 as int))
}

impl TraversalStep {
    pub open spec fn view(&self) -> (Seq<char>, Seq<char>, int) {
        (self.entity_name@, self.relation_type@, self.depth as int)
    }
}

impl TraversalGraph {
    /// Follows the out-edges of `node`, which stands at `depth`, in the order petgraph
    /// lists them.
    fn visit_out_edges(&self, node: usize, depth: u32, next: &mut Vec<usize>, vis: &mut Vec<bool>, steps: &mut Vec<(usize, usize, u32)>)
        requires
            self.wf(),
            node < self.nodes().len(),
            depth < u32::MAX,
            old(vis).len() == self.nodes().len(),
            forall|k: int| 0 <= k < old(next).len() ==> old(next)[k] < self.nodes().len(),
            forall|k: int| 0 <= k < old(steps).len() ==> old(steps)[k].0 < self.edges().len() && old(steps)[k].1 < self.nodes().len(),
        ensures
            final(vis).len() == self.nodes().len(),
            forall|k: int| 0 <= k < final(next).len() ==> final(next)[k] < self.nodes().len(),
            forall|k: int| 0 <= k < final(steps).len() ==> final(steps)[k].0 < self.edges().len() && final(steps)[k].1 < self.nodes().len(),
            (ints(final(next)@), marked(final(vis)@), step_ints(final(steps)@))
                == visit_all((ints(old(next)@), marked(old(vis)@), step_ints(old(steps)@)), outgoing(self.edges(), node as int), depth as int),
    {
        let outs = digraph_out(&self.g, node);
        let ghost out_s = outgoing(self.edges(), node as int);
        let ghost s0 = (ints(next@), marked(vis@), step_ints(steps@));
        proof {
            lemma_outgoing_bounds(self.edges(), node as int, self.nodes().len() as int);
            assert(outs@.len() == out_s.len());
        }
        let mut j: usize = 0;
        while j < outs.len()
            invariant
                self.wf(),
                j <= outs.len(),
                depth < u32::MAX,
                out_s == outgoing(self.edges(), node as int),
                outs@.map_values(|p: (usize, usize)| (p.0 as int, p.1 as int)) == out_s,
                forall|k: int| 0 <= k < out_s.len() ==> {
                    let p = #[trigger] out_s[k];
                    0 <= p.0 < self.edges().len() && 0 <= p.1 < self.nodes().len()
                },
                vis.len() == self.nodes().len(),
                forall|k: int| 0 <= k < next.len() ==> next[k] < self.nodes().len(),
                forall|k: int| 0 <= k < steps.len() ==> steps[k].0 < self.edges().len() && steps[k].1 < self.nodes().len(),
                (ints(next@), marked(vis@), step_ints(steps@)) == visit_all(s0, out_s.take(j as int), depth as int),
            decreases outs.len() - j,
        {
            let (e, nb) = outs[j];
            let ghost pre = (ints(next@), marked(vis@), step_ints(steps@));
            proof {
                assert(out_s[j as int] == (e as int, nb as int));
                assert(out_s.take(j + 1).drop_last() =~= out_s.take(j as int));
                assert(out_s.take(j + 1).last() == out_s[j as int]);
            }
            if !vis[nb] {
                vis.set(nb, true);
                next.push(nb);
                steps.push((e, nb, depth + 1));
                proof {
                    assert(!pre.1.contains(nb as int));
                    assert(ints(next@) =~= pre.0.push(nb as int));
                    assert(marked(vis@) =~= pre.1.insert(nb as int));
                    assert(step_ints(steps@) =~= pre.2.push((e as int, nb as int, depth + 1)));
                }
            } else {
                assert(pre.1.contains(nb as int));
            }
            j += 1;
        }
        assert(out_s.take(outs.len() as int) =~= out_s);
    }

    /// Expands every node of `frontier`, which stands at `depth`.
    fn expand_level(&self, frontier: &Vec<usize>, depth: u32, vis: &mut Vec<bool>) -> (r: (Vec<usize>, Vec<(usize, usize, u32)>))
        requires
            self.wf(),
            depth < u32::MAX,
            old(vis).len() == self.nodes().len(),
            forall|k: int| 0 <= k < frontier.len() ==> frontier[k] < self.nodes().len(),
        ensures
            final(vis).len() == self.nodes().len(),
            forall|k: int| 0 <= k < r.0.len() ==> r.0[k] < self.nodes().len(),
            forall|k: int| 0 <= k < r.1.len() ==> r.1[k].0 < self.edges().len() && r.1[k].1 < self.nodes().len(),
            (ints(r.0@), marked(final(vis)@), step_ints(r.1@))
                == expand((Seq::empty(), marked(old(vis)@), Seq::empty()), self.edges(), ints(frontier@), depth as int),
    {
        let mut next: Vec<usize> = Vec::new();
        let mut steps: Vec<(usize, usize, u32)> = Vec::new();
        let ghost s0: SearchState = (Seq::empty(), marked(vis@), Seq::empty());
        assert(ints(next@) =~= Seq::<int>::empty());
        assert(step_ints(steps@) =~= Seq::<(int, int, int)>::empty());
        let mut i: usize = 0;
        while i < frontier.len()
            invariant
                self.wf(),
                i <= frontier.len(),
                depth < u32::MAX,
                forall|k: int| 0 <= k < frontier.len() ==> frontier[k] < self.nodes().len(),
                vis.len() == self.nodes().len(),
                forall|k: int| 0 <= k < next.len() ==> next[k] < self.nodes().len(),
                forall|k: int| 0 <= k < steps.len() ==> steps[k].0 < self.edges().len() && steps[k].1 < self.nodes().len(),
                (ints(next@), marked(vis@), step_ints(steps@)) == expand(s0, self.edges(), ints(frontier@).take(i as int), depth as int),
            decreases frontier.len() - i,
        {
            proof {
                let f = ints(frontier@);
                assert(f.take(i + 1).drop_last() =~= f.take(i as int));
                assert(f.take(i + 1).last() == frontier[i as int] as int);
            }
            self.visit_out_edges(frontier[i], depth, &mut next, vis, &mut steps);
            i += 1;
        }
        assert(ints(frontier@).take(frontier.len() as int) =~= ints(frontier@));
        (next, steps)
    }

    /// The steps of a breadth-first traversal from node `start` down to `max_depth`.
    fn bfs_from(&self, start: usize, max_depth: u32) -> (r: Vec<(usize, usize, u32)>)
        requires
            self.wf(),
            start < self.nodes().len(),
        ensures
            forall|k: int| 0 <= k < r.len() ==> r[k].0 < self.edges().len() && r[k].1 < self.nodes().len(),
            step_ints(r@) == levels(self.edges(), seq![start as int], set![start as int], 0, max_depth as int),
    {
        let n = self.names.len();
        let mut vis: Vec<bool> = Vec::new();
        let mut k: usize = 0;
        while k < n
            invariant
                k <= n,
                vis.len() == k,
                forall|m: int| 0 <= m < k ==> !vis[m],
            decreases n - k,
        {
            vis.push(false);
            k += 1;
        }
        proof {
            assert(self.names@.len() == string_views(self.names@).len());
        }
        vis.set(start, true);
        assert(marked(vis@) =~= set![start as int]);
        let mut frontier: Vec<usize> = vec![start];
        assert(ints(frontier@) =~= seq![start as int]);
        let mut all: Vec<(usize, usize, u32)> = Vec::new();
        let ghost total = levels(self.edges(), seq![start as int], set![start as int], 0, max_depth as int);
        assert(step_ints(all@) =~= Seq::<(int, int, int)>::empty());
        let mut depth: u32 = 0;
        while depth < max_depth && frontier.len() > 0
            invariant
                self.wf(),
                depth <= max_depth,
                vis.len() == self.nodes().len(),
                forall|m: int| 0 <= m < frontier.len() ==> frontier[m] < self.nodes().len(),
                forall|m: int| 0 <= m < all.len() ==> all[m].0 < self.edges().len() && all[m].1 < self.nodes().len(),
                total == step_ints(all@) + levels(self.edges(), ints(frontier@), marked(vis@), depth as int, max_depth as int),
            decreases max_depth - depth,
        {
            let ghost before = step_ints(all@);
            let ghost lv = levels(self.edges(), ints(frontier@), marked(vis@), depth as int, max_depth as int);
            let (next, steps) = self.expand_level(&frontier, depth, &mut vis);
            let ghost mid = step_ints(steps@);
            let mut j: usize = 0;
            while j < steps.len()
                invariant
                    j <= steps.len(),
                    mid == step_ints(steps@),
                    forall|m: int| 0 <= m < steps.len() ==> steps[m].0 < self.edges().len() && steps[m].1 < self.nodes().len(),
                    forall|m: int| 0 <= m < all.len() ==> all[m].0 < self.edges().len() && all[m].1 < self.nodes().len(),
                    step_ints(all@) == before + mid.take(j as int),
                decreases steps.len() - j,
            {
                let ghost a0 = all@;
                let x = steps[j];
                all.push(x);
                assert(step_ints(all@) =~= step_ints(a0).push((x.0 as int, x.1 as int, x.2 as int)));
                assert(mid[j as int] == (x.0 as int, x.1 as int, x.2 as int));
                assert(mid.take(j + 1) =~= mid.take(j as int).push(mid[j as int]));
                assert(step_ints(all@) =~= before + mid.take(j + 1));
                j += 1;
            }
            proof {
                assert(mid.take(steps.len() as int) =~= mid);
                assert(lv == mid + levels(self.edges(), ints(next@), marked(vis@), depth + 1, max_depth as int));
                assert(before + lv =~= (before + mid) + levels(self.edges(), ints(next@), marked(vis@), depth + 1, max_depth as int));
            }
            frontier = next;
            depth += 1;
        }
        assert(total =~= step_ints(all@));
        all
    }

    /// The index of the node named `name`, if the graph has one.
    pub fn node_index(&self, name: &String) -> (r: Option<usize>)
        requires
            self.wf(),
        ensures
            match r {
                Some(i) => i < self.nodes().len() && pos(self.nodes(), name@) == i,
                None => pos(self.nodes(), name@) == -1,
            },
    {
        position_in(&self.names, name)
    }
}

/// Breadth-first traversal of the active relations in reach of `scope`, starting at
/// `start_entity` and going at most `max_depth` hops.  Each entity is reported once, the
/// first time it is reached, with the relation type that reached it and its depth;
/// nothing is reported when the start entity has no active relation in reach.
pub fn bfs_traverse(graph: &GraphMemory, start_entity: &str, max_depth: u32, scope: &MemoryScope) -> (r: Vec<TraversalStep>)
    requires
        graph.edges().len() < 0x7fff_ffff,
    ensures
        r@.map_values(|t: TraversalStep| t.view()) == bfs_spec(graph.edges(), *scope, start_entity@, max_depth as int),
{
    let t = TraversalGraph::build(graph, scope);
    let ghost names = t.nodes();
    let ghost es = t.edges();
    let start = start_entity.to_string();
    match t.node_index(&start) {
        None => {
            let r: Vec<TraversalStep> = Vec::new();
            assert(r@.map_values(|t: TraversalStep| t.view()) =~= Seq::<(Seq<char>, Seq<char>, int)>::empty());
            r
        },
        Some(s) => {
            let raw = t.bfs_from(s, max_depth);
            let ghost lv = step_ints(raw@);
            let mut r: Vec<TraversalStep> = Vec::new();
            let mut i: usize = 0;
            while i < raw.len()
                invariant
                    t.wf(),
                    names == t.nodes(),
                    es == t.edges(),
                    i <= raw.len(),
                    lv == step_ints(raw@),
                    forall|k: int| 0 <= k < raw.len() ==> raw[k].0 < es.len() && raw[k].1 < names.len(),
                    r@.map_values(|x: TraversalStep| x.view())
                        == lv.take(i as int).map_values(|x: (int, int, int)| (names[x.1], es[x.0].2, x.2)),
                decreases raw.len() - i,
            {
                let (e, nb, d) = raw[i];
                let name = digraph_node_weight(&t.g, nb);
                let rel = digraph_edge_weight(&t.g, e);
                let ghost before = r@.map_values(|x: TraversalStep| x.view());
                r.push(TraversalStep { entity_name: name, relation_type: rel, depth: d });
                proof {
                    assert(lv.take(i + 1) =~= lv.take(i as int).push(lv[i as int]));
                    assert(r@.map_values(|x: TraversalStep| x.view()) =~= before.push((names[nb as int], es[e as int].2, d as int)));
                    assert(lv.take(i + 1).map_values(|x: (int, int, int)| (names[x.1], es[x.0].2, x.2))
                        =~= lv.take(i as int).map_values(|x: (int, int, int)| (names[x.1], es[x.0].2, x.2)).push((names[nb as int], es[e as int].2, d as int)));
                }
                i += 1;
            }
            assert(lv.take(raw.len() as int) =~= lv);
            r
        },
    }
}


/// Following out-edge `p` = (edge, target) while collecting the targets of relations of
/// type `rel`: a target not yet collected is added.
pub open spec fn chain_visit(next: Seq<int>, es: Seq<(int, int, Seq<char>)>, p: (int, int), rel: Seq<char>) -> Seq<int> {
    if es[p.0].2 == rel && !next.contains(p.1) {
        next.push(p.1)
    } else {
        next
    }
}

pub open spec fn chain_visit_all(next: Seq<int>, es: Seq<(int, int, Seq<char>)>, outs: Seq<(int, int)>, rel: Seq<char>) -> Seq<int>
    decreases outs.len(),
{
    if outs.len() == 0 {
        next
    } else {
        chain_visit(chain_visit_all(next, es, outs.drop_last(), rel), es, outs.last(), rel)
    }
}

/// One link of a relation chain: the targets of relations of type `rel` out of the
/// nodes of `current`, taken node by node, each target once.
pub open spec fn chain_step(es: Seq<(int, int, Seq<char>)>, current: Seq<int>, rel: Seq<char>) -> Seq<int>
    decreases current.len(),
{
    if current.len() == 0 {
        Seq::empty()
    } else {
        chain_visit_all(chain_step(es, current.drop_last(), rel), es, outgoing(es, current.last()), rel)
    }
}

/// Following the relation types of `rels` in order from the nodes of `current`.
pub open spec fn follow_chain(es: Seq<(int, int, Seq<char>)>, current: Seq<int>, rels: Seq<Seq<char>>) -> Seq<int>
    decreases rels.len(),
{
    if rels.len() == 0 {
        current
    } else {
        chain_step(es, follow_chain(es, current, rels.drop_last()), rels.last())
    }
}

/// What `relation_chain` reports: the names reached from `start` by following `rels`.
pub open spec fn chain_spec(edges: Seq<EdgeModel>, scope: MemoryScope, start: Seq<char>, rels: Seq<Seq<char>>) -> Seq<Seq<char>> {
    let (names, es) = traversal_graph(edges, scope);
    let s = pos(names, start);
    if s < 0 {
        Seq::empty()
    } else {
        follow_chain(es, seq![s], rels).map_values(|i: int| names[i])
    }
}

fn contains_index(v: &Vec<usize>, x: usize) -> (b: bool)
    ensures
        b == ints(v@).contains(x as int),
{
    let mut i: usize = 0;
    while i < v.len()
        invariant
            i <= v.len(),
            forall|k: int| 0 <= k < i ==> v[k] != x,
        decreases v.len() - i,
    {
        if v[i] == x {
            assert(ints(v@)[i as int] == x as int);
            return true;
        }
        i += 1;
    }
    proof {
        if ints(v@).contains(x as int) {
            let k = choose|k: int| 0 <= k < ints(v@).len() && ints(v@)[k] == x as int;
            assert(v[k] == x);
        }
    }
    false
}

impl TraversalGraph {
    fn chain_out_edges(&self, node: usize, rel: &String, next: &mut Vec<usize>)
        requires
            self.wf(),
            node < self.nodes().len(),
            forall|k: int| 0 <= k < old(next).len() ==> old(next)[k] < self.nodes().len(),
        ensures
            forall|k: int| 0 <= k < final(next).len() ==> final(next)[k] < self.nodes().len(),
            ints(final(next)@) == chain_visit_all(ints(old(next)@), self.edges(), outgoing(self.edges(), node as int), rel@),
    {
        let outs = digraph_out(&self.g, node);
        let ghost out_s = outgoing(self.edges(), node as int);
        let ghost n0 = ints(next@);
        proof {
            lemma_outgoing_bounds(self.edges(), node as int, self.nodes().len() as int);
            assert(outs@.len() == out_s.len());
        }
        let mut j: usize = 0;
        while j < outs.len()
            invariant
                self.wf(),
                j <= outs.len(),
                out_s == outgoing(self.edges(), node as int),
                outs@.map_values(|p: (usize, usize)| (p.0 as int, p.1 as int)) == out_s,
                forall|k: int| 0 <= k < out_s.len() ==> {
                    let p = #[trigger] out_s[k];
                    0 <= p.0 < self.edges().len() && 0 <= p.1 < self.nodes().len()
                },
                forall|k: int| 0 <= k < next.len() ==> next[k] < self.nodes().len(),
                ints(next@) == chain_visit_all(n0, self.edges(), out_s.take(j as int), rel@),
            decreases outs.len() - j,
        {
            let (e, nb) = outs[j];
            let ghost pre = ints(next@);
            proof {
                assert(out_s[j as int] == (e as int, nb as int));
                assert(out_s.take(j + 1).drop_last() =~= out_s.take(j as int));
                assert(out_s.take(j + 1).last() == out_s[j as int]);
            }
            let w = digraph_edge_weight(&self.g, e);
            if str_eq(w.as_str(), rel.as_str()) && !contains_index(next, nb) {
                next.push(nb);
                assert(ints(next@) =~= pre.push(nb as int));
            }
            j += 1;
        }
        assert(out_s.take(outs.len() as int) =~= out_s);
    }

    fn chain_link(&self, current: &Vec<usize>, rel: &String) -> (r: Vec<usize>)
        requires
            self.wf(),
            forall|k: int| 0 <= k < current.len() ==> current[k] < self.nodes().len(),
        ensures
            forall|k: int| 0 <= k < r.len() ==> r[k] < self.nodes().len(),
            ints(r@) == chain_step(self.edges(), ints(current@), rel@),
    {
        let mut next: Vec<usize> = Vec::new();
        assert(ints(next@) =~= Seq::<int>::empty());
        let mut i: usize = 0;
        while i < current.len()
            invariant
                self.wf(),
                i <= current.len(),
                forall|k: int| 0 <= k < current.len() ==> current[k] < self.nodes().len(),
                forall|k: int| 0 <= k < next.len() ==> next[k] < self.nodes().len(),
                ints(next@) == chain_step(self.edges(), ints(current@).take(i as int), rel@),
            decreases current.len() - i,
        {
            proof {
                let f = ints(current@);
                assert(f.take(i + 1).drop_last() =~= f.take(i as int));
                assert(f.take(i + 1).last() == current[i as int] as int);
            }
            self.chain_out_edges(current[i], rel, &mut next);
            i += 1;
        }
        assert(ints(current@).take(current.len() as int) =~= ints(current@));
        next
    }

    /// The entity names of the nodes at the given indices.
    fn names_of(&self, idx: &Vec<usize>) -> (r: Vec<String>)
        requires
            self.wf(),
            forall|k: int| 0 <= k < idx.len() ==> idx[k] < self.nodes().len(),
        ensures
            string_views(r@) == ints(idx@).map_values(|i: int| self.nodes()[i]),
    {
        let mut r: Vec<String> = Vec::new();
        let mut i: usize = 0;
        while i < idx.len()
            invariant
                self.wf(),
                i <= idx.len(),
                forall|k: int| 0 <= k < idx.len() ==> idx[k] < self.nodes().len(),
                string_views(r@) == ints(idx@).take(i as int).map_values(|i: int| self.nodes()[i]),
            decreases idx.len() - i,
        {
            let w = digraph_node_weight(&self.g, idx[i]);
            let ghost before = r@;
            r.push(w);
            proof {
                assert(string_views(r@) =~= string_views(before).push(self.nodes()[idx[i as int] as int]));
                assert(ints(idx@).take(i + 1) =~= ints(idx@).take(i as int).push(idx[i as int] as int));
                assert(ints(idx@).take(i + 1).map_values(|i: int| self.nodes()[i])
                    =~= ints(idx@).take(i as int).map_values(|i: int| self.nodes()[i]).push(self.nodes()[idx[i as int] as int]));
            }
            i += 1;
        }
        assert(ints(idx@).take(idx.len() as int) =~= ints(idx@));
        r
    }
}

/// The entities reached from `start` by following relations of the types of `chain` in
/// turn, over the active relations in reach of `scope`.  Each link keeps every entity
/// reached once, in the order reached; nothing when the start entity has no active
/// relation in reach.
pub fn relation_chain(graph: &GraphMemory, start: &str, chain: &[String], scope: &MemoryScope) -> (r: Vec<String>)
    requires
        graph.edges().len() < 0x7fff_ffff,
    ensures
        string_views(r@) == chain_spec(graph.edges(), *scope, start@, string_views(chain@)),
{
    let t = TraversalGraph::build(graph, scope);
    let name = start.to_string();
    match t.node_index(&name) {
        None => {
            let r: Vec<String> = Vec::new();
            assert(string_views(r@) =~= Seq::<Seq<char>>::empty());
            r
        },
        Some(s) => {
            let mut current: Vec<usize> = vec![s];
            let ghost rels = string_views(chain@);
            assert(ints(current@) =~= seq![s as int]);
            let mut i: usize = 0;
            while i < chain.len()
                invariant
                    t.wf(),
                    s < t.nodes().len(),
                    i <= chain.len(),
                    rels == string_views(chain@),
                    forall|k: int| 0 <= k < current.len() ==> current[k] < t.nodes().len(),
                    ints(current@) == follow_chain(t.edges(), seq![s as int], rels.take(i as int)),
                decreases chain.len() - i,
            {
                proof {
                    assert(rels.take(i + 1).drop_last() =~= rels.take(i as int));
                    assert(rels.take(i + 1).last() == chain[i as int]@);
                }
                current = t.chain_link(&current, &chain[i]);
                i += 1;
            }
            assert(rels.take(chain.len() as int) =~= rels);
            t.names_of(&current)
        },
    }
}

/// The node index of `x` in `s` when it is there.
proof fn lemma_pos_found(s: Seq<Seq<char>>, x: Seq<char>)
    requires
        pos(s, x) >= 0,
    ensures
        pos(s, x) < s.len(),
        s[pos(s, x)] == x,
    decreases s.len(),
{
    if s.len() > 0 && s[0] != x {
        lemma_pos_found(s.drop_first(), x);
    }
}

proof fn lemma_outgoing_has(es: Seq<(int, int, Seq<char>)>, a: int, k: int)
    requires
        0 <= k < es.len(),
        es[k].0 == a,
    ensures
        outgoing(es, a).contains((k, es[k].1)),
    decreases es.len(),
{
    let rest = outgoing(es.drop_last(), a);
    if k == es.len() - 1 {
        assert(outgoing(es, a)[0] == (k, es[k].1));
    } else {
        assert(es.drop_last()[k] == es[k]);
        lemma_outgoing_has(es.drop_last(), a, k);
        let m = choose|m: int| 0 <= m < rest.len() && rest[m] == (k, es[k].1);
        if es.last().0 == a {
            assert(outgoing(es, a)[m + 1] == rest[m]);
        } else {
            assert(outgoing(es, a)[m] == rest[m]);
        }
    }
}

proof fn lemma_first_to(outs: Seq<(int, int)>, b: int, j: int)
    requires
        0 <= j < outs.len(),
        outs[j].1 == b,
    ensures
        first_to(outs, b) is Some,
        exists|m: int| 0 <= m < outs.len() && outs[m].0 == first_to(outs, b).unwrap(),
    decreases j,
{
    if outs[0].1 != b {
        lemma_first_to(outs.drop_first(), b, j - 1);
        let m = choose|m: int| 0 <= m < outs.drop_first().len() && outs.drop_first()[m].0 == first_to(outs.drop_first(), b).unwrap();
        assert(outs[m + 1] == outs.drop_first()[m]);
    } else {
        assert(outs[0].0 == first_to(outs, b).unwrap());
    }
}

/// The relation type that `Graph::find_edge` gives between consecutive nodes of `p`.
pub open spec fn hop_types(es: Seq<(int, int, Seq<char>)>, p: Seq<int>) -> Seq<Seq<char>> {
    Seq::new((p.len() - 1) as nat, |i: int| es[first_to(outgoing(es, p[i]), p[i + 1]).unwrap()].2)
}

impl PathResult {
    pub open spec fn view(&self) -> (Seq<Seq<char>>, Seq<Seq<char>>) {
        (string_views(self.path@), string_views(self.relations@))
    }
}

/// The path through the nodes at `indices` of `t`: their names, and between each two the
/// type of the relation that `Graph::find_edge` finds from one to the next.
pub fn path_from_indices(t: &TraversalGraph, indices: &Vec<usize>) -> (r: PathResult)
    requires
        t.wf(),
        indices.len() >= 1,
        forall|k: int| 0 <= k < indices.len() ==> indices[k] < t.nodes().len(),
        is_walk(t.edges(), ints(indices@)),
    ensures
        r.view() == (ints(indices@).map_values(|i: int| t.nodes()[i]), hop_types(t.edges(), ints(indices@))),
{
    let path = t.names_of(indices);
    let ghost p = ints(indices@);
    let ghost es = t.edges();
    let mut relations: Vec<String> = Vec::new();
    let mut i: usize = 0;
    while i + 1 < indices.len()
        invariant
            t.wf(),
            es == t.edges(),
            p == ints(indices@),
            indices.len() >= 1,
            i + 1 <= indices.len(),
            forall|k: int| 0 <= k < indices.len() ==> indices[k] < t.nodes().len(),
            is_walk(es, p),
            string_views(relations@) == hop_types(es, p).take(i as int),
        decreases indices.len() - i,
    {
        let a = indices[i];
        let b = indices[i + 1];
        proof {
            assert(p[i as int] == a as int);
            assert(p[i + 1] == b as int);
            let k = choose|k: int| 0 <= k < es.len() && es[k].0 == p[i as int] && es[k].1 == p[i + 1];
            lemma_outgoing_has(es, a as int, k);
            let outs = outgoing(es, a as int);
            let j = choose|j: int| 0 <= j < outs.len() && outs[j] == (k, es[k].1);
            lemma_first_to(outs, b as int, j);
            lemma_outgoing_bounds(es, a as int, t.nodes().len() as int);
        }
        let e = digraph_find_edge(&t.g, a, b);
        let e = match e {
            Some(e) => e,
            None => { proof { assert(false); } 0 },
        };
        proof {
            let outs = outgoing(es, a as int);
            let m = choose|m: int| 0 <= m < outs.len() && outs[m].0 == first_to(outs, b as int).unwrap();
            assert(0 <= outs[m].0 < es.len());
        }
        let w = digraph_edge_weight(&t.g, e);
        let ghost before = relations@;
        relations.push(w);
        proof {
            assert(string_views(relations@) =~= string_views(before).push(es[e as int].2));
            assert(hop_types(es, p).take(i + 1) =~= hop_types(es, p).take(i as int).push(hop_types(es, p)[i as int]));
        }
        i += 1;
    }
    assert(hop_types(es, p).take(i as int) =~= hop_types(es, p));
    PathResult { path, relations }
}

/// The message for a start entity with no traversable relation.
pub open spec fn start_missing(name: Seq<char>) -> Seq<char> {
    "Start entity '"@ + name + "' not found"@
}

/// The message for a target entity with no traversable relation.
pub open spec fn target_missing(name: Seq<char>) -> Seq<char> {
    "Target entity '"@ + name + "' not found"@
}

/// The message for two entities with no path between them.
pub open spec fn no_path(start: Seq<char>, target: Seq<char>) -> Seq<char> {
    "No path found between "@ + start + " and "@ + target
}

/// What `shortest_path` answers, over the traversal graph of `scope`.
pub open spec fn shortest_path_spec(edges: Seq<EdgeModel>, scope: MemoryScope, start: Seq<char>, target: Seq<char>)
    -> Result<(Seq<Seq<char>>, Seq<Seq<char>>), TraversalErrorModel>
{
    let (names, es) = traversal_graph(edges, scope);
    let s = pos(names, start);
    let t = pos(names, target);
    if s < 0 {
        Err(TraversalErrorModel::EntityNotFound(start_missing(start)))
    } else if t < 0 {
        Err(TraversalErrorModel::EntityNotFound(target_missing(target)))
    } else {
        match unit_astar(es, s, t) {
            Some(p) => Ok((p.map_values(|i: int| names[i]), hop_types(es, p))),
            None => Err(TraversalErrorModel::PathNotFound(no_path(start, target))),
        }
    }
}

pub enum TraversalErrorModel {
    EntityNotFound(Seq<char>),
    PathNotFound(Seq<char>),
}

impl TraversalError {
    pub open spec fn view(&self) -> TraversalErrorModel {
        match self {
            TraversalError::EntityNotFound(m) => TraversalErrorModel::EntityNotFound(m@),
            TraversalError::PathNotFound(m) => TraversalErrorModel::PathNotFound(m@),
        }
    }
}

pub open spec fn path_answer(r: Result<PathResult, TraversalError>) -> Result<(Seq<Seq<char>>, Seq<Seq<char>>), TraversalErrorModel> {
    match r {
        Ok(p) => Ok(p.view()),
        Err(e) => Err(e.view()),
    }
}

/// A shortest path from `start` to `target` over the active relations in reach of
/// `scope`, found by A* with unit costs: the entity names along it and the relation type
/// of each hop.  Fails with `EntityNotFound` when either entity has no traversable
/// relation, and with `PathNotFound` exactly when both have one but no path joins them.
/// A path found follows relations from `start` to `target`, and no path is shorter.
pub fn shortest_path(graph: &GraphMemory, start: &str, target: &str, scope: &MemoryScope) -> (r: Result<PathResult, TraversalError>)
    requires
        graph.edges().len() < 0x7fff_ffff,
    ensures
        path_answer(r) == shortest_path_spec(graph.edges(), *scope, start@, target@),
        r matches Ok(p) ==> p.path@.len() >= 1 && p.path@[0]@ == start@ && p.path@.last()@ == target@
            && p.relations@.len() + 1 == p.path@.len(),
        r matches Ok(p) ==> ({
            let (names, es) = traversal_graph(graph.edges(), *scope);
            forall|q: Seq<int>| walk_between(es, q, pos(names, start@), pos(names, target@)) ==> q.len() >= p.path@.len()
        }),
        r matches Ok(p) ==> ({
            let (names, es) = traversal_graph(graph.edges(), *scope);
            exists|q: Seq<int>| #[trigger] walk_between(es, q, pos(names, start@), pos(names, target@))
                && string_views(p.path@) == q.map_values(|i: int| names[i])
        }),
        ({
            let (names, es) = traversal_graph(graph.edges(), *scope);
            &&& r matches Err(TraversalError::EntityNotFound(_)) ==> pos(names, start@) < 0 || pos(names, target@) < 0
            &&& r matches Err(TraversalError::PathNotFound(_)) ==> pos(names, start@) >= 0 && pos(names, target@) >= 0
                && forall|q: Seq<int>| !#[trigger] walk_between(es, q, pos(names, start@), pos(names, target@))
            &&& (pos(names, start@) >= 0 && pos(names, target@) >= 0
                && exists|q: Seq<int>| #[trigger] walk_between(es, q, pos(names, start@), pos(names, target@))) ==> r is Ok
        }),
{
    let t = TraversalGraph::build(graph, scope);
    let ghost names = t.nodes();
    let ghost es = t.edges();
    let s_name = start.to_string();
    let t_name = target.to_string();
    let s = match t.node_index(&s_name) {
        Some(s) => s,
        None => {
            let mut m = owned("Start entity '");
            m.append(start);
            m.append("' not found");
            return Err(TraversalError::EntityNotFound(m));
        },
    };
    let g = match t.node_index(&t_name) {
        Some(g) => g,
        None => {
            let mut m = owned("Target entity '");
            m.append(target);
            m.append("' not found");
            return Err(TraversalError::EntityNotFound(m));
        },
    };
    proof {
        lemma_pos_found(names, start@);
        lemma_pos_found(names, target@);
        assert(t.nodes().len() <= 2 * graph.edges().len()) by {
            lemma_build_size(graph.edges().filter(traversable(*scope)));
            graph.edges().lemma_filter_len(traversable(*scope));
        }
    }
    match digraph_shortest_path(&t.g, s, g) {
        Some(idx) => {
            proof {
                let p = ints(idx@);
                assert forall|k: int| 0 <= k < idx.len() implies idx[k] < t.nodes().len() by {
                    assert(p[k] == idx[k] as int);
                    if k < p.len() - 1 {
                        let e = choose|e: int| 0 <= e < es.len() && es[e].0 == p[k] && es[e].1 == p[k + 1];
                    } else if k > 0 {
                        let e = choose|e: int| 0 <= e < es.len() && es[e].0 == p[k - 1] && es[e].1 == p[k];
                    }
                }
            }
            let r = path_from_indices(&t, &idx);
            proof {
                let p = ints(idx@);
                let sv = string_views(r.path@);
                assert(sv == p.map_values(|i: int| names[i]));
                assert(sv.len() == p.len());
                assert(r.path@.len() == sv.len());
                assert(p[0] == s as int);
                assert(sv[0] == names[p[0]]);
                assert(sv[0] == r.path@[0]@);
                assert(sv[sv.len() - 1] == names[p[p.len() - 1]]);
                assert(sv[sv.len() - 1] == r.path@[sv.len() - 1]@);
                assert(string_views(r.relations@).len() == hop_types(es, p).len());
                assert(walk_between(es, p, pos(names, start@), pos(names, target@)));
            }
            Ok(r)
        },
        None => {
            let mut m = owned("No path found between ");
            m.append(start);
            m.append(" and ");
            m.append(target);
            Err(TraversalError::PathNotFound(m))
        },
    }
}

proof fn lemma_build_size(es: Seq<EdgeModel>)
    ensures
        build_fold(es).0.len() <= 2 * es.len(),
        build_fold(es).1.len() == es.len(),
    decreases es.len(),
{
    if es.len() > 0 {
        lemma_build_size(es.drop_last());
    }
}


/// The call graph turned around: for each call whose caller and callee are both known
/// elements, an edge from the callee's node to the caller's.
pub open spec fn call_edges(names: Seq<Seq<char>>, calls: Seq<(Seq<char>, Seq<char>)>) -> Seq<(int, int, Seq<char>)>
    decreases calls.len(),
{
    if calls.len() == 0 {
        Seq::empty()
    } else {
        let p = call_edges(names, calls.drop_last());
        let c = calls.last();
        if names.contains(c.0) && names.contains(c.1) { p.push((pos(names, c.1), pos(names, c.0), Seq::empty())) } else { p }
    }
}

pub open spec fn pair_strings(s: Seq<(String, String)>) -> Seq<(Seq<char>, Seq<char>)> {
    s.map_values(|p: (String, String)| (p.0@, p.1@))
}

proof fn lemma_pos_contains(s: Seq<Seq<char>>, x: Seq<char>)
    ensures
        s.contains(x) <==> pos(s, x) >= 0,
    decreases s.len(),
{
    if s.len() > 0 && s[0] != x {
        lemma_pos_contains(s.drop_first(), x);
        if s.contains(x) {
            let k = choose|k: int| 0 <= k < s.len() && s[k] == x;
            assert(s.drop_first()[k - 1] == x);
        }
        if s.drop_first().contains(x) {
            let k = choose|k: int| 0 <= k < s.drop_first().len() && s.drop_first()[k] == x;
            assert(s[k + 1] == x);
        }
    } else if s.len() > 0 {
        assert(s[0] == x);
    }
}

impl TraversalGraph {
    /// The reversed call graph over the distinct element identifiers, in order of first
    /// appearance.
    pub fn from_calls(ids: &Vec<String>, calls: &Vec<(String, String)>) -> (r: Self)
        requires
            ids.len() < u32::MAX - 1,
            calls.len() < u32::MAX,
        ensures
            r.wf(),
            r.nodes() == crate::recall::dedup_first(string_views(ids@)),
            r.edges() == call_edges(r.nodes(), pair_strings(calls@)),
    {
        let mut t = TraversalGraph { g: digraph_new(), names: Vec::new() };
        assert(string_views(t.names@) =~= digraph_nodes(t.g));
        let ghost iv = string_views(ids@);
        let mut i: usize = 0;
        assert(crate::recall::dedup_first(iv.take(0)) =~= Seq::<Seq<char>>::empty());
        while i < ids.len()
            invariant
                i <= ids.len(),
                ids.len() < u32::MAX - 1,
                iv == string_views(ids@),
                t.wf(),
                t.nodes() == crate::recall::dedup_first(iv.take(i as int)),
                t.nodes().len() <= i,
                t.edges() == Seq::<(int, int, Seq<char>)>::empty(),
            decreases ids.len() - i,
        {
            proof {
                assert(iv.take(i + 1).drop_last() =~= iv.take(i as int));
                assert(iv.take(i + 1).last() == ids@[i as int]@);
            }
            t.index_or_add(&ids[i]);
            i += 1;
        }
        assert(iv.take(ids.len() as int) =~= iv);
        let ghost names = t.nodes();
        let ghost cs = pair_strings(calls@);
        let mut k: usize = 0;
        assert(call_edges(names, cs.take(0)) =~= Seq::<(int, int, Seq<char>)>::empty());
        while k < calls.len()
            invariant
                k <= calls.len(),
                calls.len() < u32::MAX,
                cs == pair_strings(calls@),
                t.wf(),
                t.nodes() == names,
                t.edges() == call_edges(names, cs.take(k as int)),
                t.edges().len() <= k,
            decreases calls.len() - k,
        {
            proof {
                assert(cs.take(k + 1).drop_last() =~= cs.take(k as int));
                assert(cs.take(k + 1).last() == (calls@[k as int].0@, calls@[k as int].1@));
            }
            let a = t.node_index(&calls[k].0);
            let b = t.node_index(&calls[k].1);
            proof {
                lemma_pos_contains(names, calls@[k as int].0@);
                lemma_pos_contains(names, calls@[k as int].1@);
            }
            match (a, b) {
                (Some(caller), Some(callee)) => {
                    let ghost e0 = t.edges();
                    let w = String::new();
                    assert(w@ =~= Seq::<char>::empty());
                    digraph_add_edge(&mut t.g, callee, caller, w);
                    proof {
                        assert forall|m: int| 0 <= m < t.edges().len() implies
                            0 <= #[trigger] t.edges()[m].0 < t.nodes().len() && 0 <= t.edges()[m].1 < t.nodes().len() by {
                            if m < e0.len() {
                                assert(t.edges()[m] == e0[m]);
                            }
                        }
                    }
                },
                _ => {},
            }
            k += 1;
        }
        assert(cs.take(calls.len() as int) =~= cs);
        t
    }
}

/// What a change to an element affects.
#[derive(Debug, Clone)]
pub struct ImpactSummary {
    pub affected_symbols: Vec<String>,
    pub max_depth: u32,
    pub direct_callers: u64,
    pub transitive_callers: u64,
    pub details: String,
}

/// The greatest depth among the steps, or 0.
pub open spec fn deepest(lv: Seq<(int, int, int)>) -> int
    decreases lv.len(),
{
    if lv.len() == 0 {
        0
    } else {
        let d = deepest(lv.drop_last());
        if lv.last().2 > d { lv.last().2 } else { d }
    }
}

pub open spec fn impact_message(target: Seq<char>, direct: nat, transitive: nat, depth: nat) -> Seq<char> {
    "Target '"@ + target + "' has "@ + crate::codebase::decimal(direct) + " direct callers and "@
        + crate::codebase::decimal(transitive) + " transitive callers. Maximum propagation depth: "@
        + crate::codebase::decimal(depth) + "."@
}

pub open spec fn symbol_missing(target: Seq<char>) -> Seq<char> {
    "Symbol '"@ + target + "' not found in indexed codebase"@
}

/// The impact of changing `target`: over the reversed call graph of the elements,
/// breadth first from `target`, the callers reached (each once, nearest first), the
/// greatest depth, the direct callers (edges out of the target, repeated calls counted
/// each time), and the rest.
pub open spec fn impact_spec(ids: Seq<Seq<char>>, calls: Seq<(Seq<char>, Seq<char>)>, target: Seq<char>)
    -> Result<(Seq<Seq<char>>, int, int, int, Seq<char>), Seq<char>>
{
    let names = crate::recall::dedup_first(ids);
    let es = call_edges(names, calls);
    let s = pos(names, target);
    if s < 0 {
        Err(symbol_missing(target))
    } else {
        let lv = levels(es, seq![s], set![s], 0, u32::MAX as int);
        let direct = outgoing(es, s).len() as int;
        let transitive = if lv.len() >= direct { lv.len() - direct } else { 0 };
        Ok((lv.map_values(|t: (int, int, int)| names[t.1]), deepest(lv), direct, transitive,
            impact_message(target, direct as nat, transitive as nat, deepest(lv) as nat)))
    }
}

impl ImpactSummary {
    pub open spec fn view(&self) -> (Seq<Seq<char>>, int, int, int, Seq<char>) {
        (string_views(self.affected_symbols@), self.max_depth as int, self.direct_callers as int, self.transitive_callers as int, self.details@)
    }
}

/// Impact analysis over the elements in scope (`element_ids`, as stored) and the calls
/// (caller, callee) between them; fails when `target_symbol` is not an element.
pub fn impact_analysis(element_ids: &Vec<String>, calls: &Vec<(String, String)>, target_symbol: &str) -> (r: Result<ImpactSummary, String>)
    requires
        element_ids.len() < u32::MAX - 1,
        calls.len() < u32::MAX,
    ensures
        match r {
            Ok(x) => impact_spec(string_views(element_ids@), pair_strings(calls@), target_symbol@) == Ok::<_, Seq<char>>(x.view()),
            Err(m) => impact_spec(string_views(element_ids@), pair_strings(calls@), target_symbol@) == Err::<(Seq<Seq<char>>, int, int, int, Seq<char>), _>(m@),
        },
{
    let t = TraversalGraph::from_calls(element_ids, calls);
    let ghost names = t.nodes();
    let ghost es = t.edges();
    let target = target_symbol.to_string();
    let s = match t.node_index(&target) {
        Some(s) => s,
        None => {
            let mut m = owned("Symbol '");
            m.append(target_symbol);
            m.append("' not found in indexed codebase");
            return Err(m);
        },
    };
    let raw = t.bfs_from(s, u32::MAX);
    let ghost lv = step_ints(raw@);
    let mut affected: Vec<String> = Vec::new();
    let mut deep: u32 = 0;
    let mut i: usize = 0;
    while i < raw.len()
        invariant
            t.wf(),
            names == t.nodes(),
            i <= raw.len(),
            lv == step_ints(raw@),
            forall|k: int| 0 <= k < raw.len() ==> raw[k].0 < es.len() && raw[k].1 < names.len(),
            string_views(affected@) == lv.take(i as int).map_values(|x: (int, int, int)| names[x.1]),
            deep as int == deepest(lv.take(i as int)),
        decreases raw.len() - i,
    {
        let (e, nb, d) = raw[i];
        let name = digraph_node_weight(&t.g, nb);
        let ghost before = string_views(affected@);
        affected.push(name);
        proof {
            assert(lv.take(i + 1) =~= lv.take(i as int).push(lv[i as int]));
            assert(lv.take(i + 1).drop_last() =~= lv.take(i as int));
            assert(string_views(affected@) =~= before.push(names[nb as int]));
            assert(lv.take(i + 1).map_values(|x: (int, int, int)| names[x.1])
                =~= lv.take(i as int).map_values(|x: (int, int, int)| names[x.1]).push(names[nb as int]));
        }
        if d > deep {
            deep = d;
        }
        i += 1;
    }
    assert(lv.take(raw.len() as int) =~= lv);
    let outs = digraph_out(&t.g, s);
    proof {
        assert(outs@.map_values(|p: (usize, usize)| (p.0 as int, p.1 as int)).len() == outs@.len());
    }
    let direct: u64 = outs.len() as u64;
    let transitive: u64 = if affected.len() as u64 >= direct { affected.len() as u64 - direct } else { 0 };
    let mut details = owned("Target '");
    details.append(target_symbol);
    details.append("' has ");
    let d1 = crate::codebase::decimal_string(direct);
    details.append(d1.as_str());
    details.append(" direct callers and ");
    let d2 = crate::codebase::decimal_string(transitive);
    details.append(d2.as_str());
    details.append(" transitive callers. Maximum propagation depth: ");
    let d3 = crate::codebase::decimal_string(deep as u64);
    details.append(d3.as_str());
    details.append(".");
    proof {
        assert(string_views(affected@).len() == lv.len());
    }
    Ok(ImpactSummary { affected_symbols: affected, max_depth: deep, direct_callers: direct, transitive_callers: transitive, details })
}


/// From search state `a` to `b` at `depth`: the steps recorded before stay, the visited
/// nodes stay visited, and each step added reaches at `depth + 1` a node not visited in
/// `a`, visited in `b`, and reached by no other added step.
pub open spec fn grows(a: SearchState, b: SearchState, depth: int) -> bool {
    &&& a.2.len() <= b.2.len()
    &&& b.2.take(a.2.len() as int) == a.2
    &&& forall|x: int| a.1.contains(x) ==> b.1.contains(x)
    &&& forall|k: int| a.2.len() <= k < b.2.len() ==> {
        &&& (#[trigger] b.2[k]).2 == depth + 1
        &&& !a.1.contains(b.2[k].1)
        &&& b.1.contains(b.2[k].1)
    }
    &&& forall|k1: int, k2: int| a.2.len() <= k1 < k2 < b.2.len() ==> (#[trigger] b.2[k1]).1 != (#[trigger] b.2[k2]).1
}

proof fn lemma_visit_grows(a: SearchState, b: SearchState, p: (int, int), depth: int)
    requires
        grows(a, b, depth),
    ensures
        grows(a, visit(b, p, depth), depth),
{
    let c = visit(b, p, depth);
    if !b.1.contains(p.1) {
        assert(c.2.take(a.2.len() as int) =~= b.2.take(a.2.len() as int));
        assert forall|k: int| a.2.len() <= k < c.2.len() implies {
            &&& (#[trigger] c.2[k]).2 == depth + 1
            &&& !a.1.contains(c.2[k].1)
            &&& c.1.contains(c.2[k].1)
        } by {
            if k < b.2.len() {
                assert(c.2[k] == b.2[k]);
            }
        }
        assert forall|k1: int, k2: int| a.2.len() <= k1 < k2 < c.2.len() implies (#[trigger] c.2[k1]).1 != (#[trigger] c.2[k2]).1 by {
            assert(c.2[k1] == b.2[k1]);
            if k2 < b.2.len() {
                assert(c.2[k2] == b.2[k2]);
            }
        }
    }
}

proof fn lemma_visit_all_grows(a: SearchState, outs: Seq<(int, int)>, depth: int)
    ensures
        grows(a, visit_all(a, outs, depth), depth),
    decreases outs.len(),
{
    if outs.len() == 0 {
        assert(a.2.take(a.2.len() as int) =~= a.2);
    } else {
        lemma_visit_all_grows(a, outs.drop_last(), depth);
        lemma_visit_grows(a, visit_all(a, outs.drop_last(), depth), outs.last(), depth);
    }
}

proof fn lemma_grows_trans(a: SearchState, b: SearchState, c: SearchState, depth: int)
    requires
        grows(a, b, depth),
        grows(b, c, depth),
    ensures
        grows(a, c, depth),
{
    assert(c.2.take(a.2.len() as int) =~= c.2.take(b.2.len() as int).take(a.2.len() as int));
    assert forall|k: int| a.2.len() <= k < c.2.len() implies {
        &&& (#[trigger] c.2[k]).2 == depth + 1
        &&& !a.1.contains(c.2[k].1)
        &&& c.1.contains(c.2[k].1)
    } by {
        if k < b.2.len() {
            assert(c.2[k] == c.2.take(b.2.len() as int)[k]);
            assert(c.2[k] == b.2[k]);
        }
    }
    assert forall|k1: int, k2: int| a.2.len() <= k1 < k2 < c.2.len() implies (#[trigger] c.2[k1]).1 != (#[trigger] c.2[k2]).1 by {
        if k2 < b.2.len() {
            assert(c.2[k1] == c.2.take(b.2.len() as int)[k1]);
            assert(c.2[k2] == c.2.take(b.2.len() as int)[k2]);
        } else if k1 < b.2.len() {
            assert(c.2[k1] == c.2.take(b.2.len() as int)[k1]);
            assert(b.1.contains(b.2[k1].1));
        }
    }
}

proof fn lemma_expand_grows(a: SearchState, es: Seq<(int, int, Seq<char>)>, frontier: Seq<int>, depth: int)
    ensures
        grows(a, expand(a, es, frontier, depth), depth),
    decreases frontier.len(),
{
    if frontier.len() == 0 {
        assert(a.2.take(a.2.len() as int) =~= a.2);
    } else {
        let b = expand(a, es, frontier.drop_last(), depth);
        lemma_expand_grows(a, es, frontier.drop_last(), depth);
        lemma_visit_all_grows(b, outgoing(es, frontier.last()), depth);
        lemma_grows_trans(a, b, expand(a, es, frontier, depth), depth);
    }
}

proof fn lemma_levels(es: Seq<(int, int, Seq<char>)>, frontier: Seq<int>, visited: Set<int>, depth: int, max_depth: int)
    ensures
        ({
            let lv = levels(es, frontier, visited, depth, max_depth);
            &&& forall|k: int| 0 <= k < lv.len() ==> depth + 1 <= (#[trigger] lv[k]).2 <= max_depth
            &&& forall|k: int| 0 <= k < lv.len() ==> !visited.contains((#[trigger] lv[k]).1)
            &&& forall|i: int, j: int| 0 <= i < j < lv.len() ==> (#[trigger] lv[i]).1 != (#[trigger] lv[j]).1
        }),
    decreases max_depth - depth,
{
    if !(depth >= max_depth || frontier.len() == 0) {
        let a: SearchState = (Seq::empty(), visited, Seq::empty());
        let st = expand(a, es, frontier, depth);
        lemma_expand_grows(a, es, frontier, depth);
        lemma_levels(es, st.0, st.1, depth + 1, max_depth);
        let rest = levels(es, st.0, st.1, depth + 1, max_depth);
        let lv = levels(es, frontier, visited, depth, max_depth);
        assert(lv == st.2 + rest);
        assert forall|k: int| 0 <= k < lv.len() implies depth + 1 <= (#[trigger] lv[k]).2 <= max_depth by {
            if k < st.2.len() {
                assert(lv[k] == st.2[k]);
            } else {
                assert(lv[k] == rest[k - st.2.len()]);
            }
        }
        assert forall|k: int| 0 <= k < lv.len() implies !visited.contains((#[trigger] lv[k]).1) by {
            if k < st.2.len() {
                assert(lv[k] == st.2[k]);
            } else {
                assert(lv[k] == rest[k - st.2.len()]);
            }
        }
        assert forall|i: int, j: int| 0 <= i < j < lv.len() implies (#[trigger] lv[i]).1 != (#[trigger] lv[j]).1 by {
            if j < st.2.len() {
                assert(lv[i] == st.2[i]);
                assert(lv[j] == st.2[j]);
            } else if i < st.2.len() {
                assert(lv[i] == st.2[i]);
                assert(lv[j] == rest[j - st.2.len()]);
                assert(st.1.contains(st.2[i].1));
            } else {
                assert(lv[i] == rest[i - st.2.len()]);
                assert(lv[j] == rest[j - st.2.len()]);
            }
        }
    }
}

/// A breadth-first traversal reports each node at most once, never the start, at a
/// depth between 1 and the maximum depth.
pub proof fn law_bfs_reports_once(es: Seq<(int, int, Seq<char>)>, start: int, max_depth: int)
    ensures
        ({
            let lv = levels(es, seq![start], set![start], 0, max_depth);
            &&& forall|k: int| 0 <= k < lv.len() ==> 1 <= (#[trigger] lv[k]).2 <= max_depth
            &&& forall|k: int| 0 <= k < lv.len() ==> (#[trigger] lv[k]).1 != start
            &&& forall|i: int, j: int| 0 <= i < j < lv.len() ==> (#[trigger] lv[i]).1 != (#[trigger] lv[j]).1
        }),
{
    lemma_levels(es, seq![start], set![start], 0, max_depth);
    let lv = levels(es, seq![start], set![start], 0, max_depth);
    assert forall|k: int| 0 <= k < lv.len() implies (#[trigger] lv[k]).1 != start by {
        assert(set![start].contains(start));
    }
}


/// The nodes one edge away from a node of `from`.
pub open spec fn successors(es: Seq<(int, int, Seq<char>)>, from: Set<int>) -> Set<int> {
    Set::new(|b: int| exists|e: int| 0 <= e < es.len() && from.contains((#[trigger] es[e]).0) && es[e].1 == b)
}

/// The nodes that a walk of at most `d` edges from `start` reaches.
pub open spec fn within_steps(es: Seq<(int, int, Seq<char>)>, start: int, d: int) -> Set<int>
    decreases d,
{
    if d <= 0 {
        set![start]
    } else {
        within_steps(es, start, d - 1).union(successors(es, within_steps(es, start, d - 1)))
    }
}

/// `x` is `d` edges from `start`: a walk of `d` edges reaches it and none shorter does.
pub open spec fn at_distance(es: Seq<(int, int, Seq<char>)>, start: int, x: int, d: int) -> bool {
    within_steps(es, start, d).contains(x) && (d <= 0 || !within_steps(es, start, d - 1).contains(x))
}

pub open spec fn queued(s: SearchState) -> bool {
    s.0 == s.2.map_values(|t: (int, int, int)| t.1)
}

proof fn lemma_outgoing_entries(es: Seq<(int, int, Seq<char>)>, a: int)
    ensures
        forall|k: int| 0 <= k < outgoing(es, a).len() ==> {
            let p = #[trigger] outgoing(es, a)[k];
            0 <= p.0 < es.len() && es[p.0].0 == a && p.1 == es[p.0].1
        },
    decreases es.len(),
{
    if es.len() > 0 {
        let p = es.drop_last();
        lemma_outgoing_entries(p, a);
        let rest = outgoing(p, a);
        assert forall|k: int| 0 <= k < outgoing(es, a).len() implies {
            let q = #[trigger] outgoing(es, a)[k];
            0 <= q.0 < es.len() && es[q.0].0 == a && q.1 == es[q.0].1
        } by {
            if es.last().0 == a {
                if k > 0 {
                    assert(outgoing(es, a)[k] == rest[k - 1]);
                    assert(es[rest[k - 1].0] == p[rest[k - 1].0]);
                }
            } else {
                assert(outgoing(es, a)[k] == rest[k]);
                assert(es[rest[k].0] == p[rest[k].0]);
            }
        }
    }
}

/// Following out-edges keeps the queue in step with the recorded steps, visits exactly
/// their targets, and records every node it newly visits.
proof fn lemma_visit_all_sets(s: SearchState, outs: Seq<(int, int)>, depth: int)
    requires
        queued(s),
    ensures
        ({
            let r = visit_all(s, outs, depth);
            &&& queued(r)
            &&& forall|x: int| #[trigger] r.1.contains(x) <==> (s.1.contains(x) || exists|i: int| 0 <= i < outs.len() && (#[trigger] outs[i]).1 == x)
            &&& forall|x: int| #[trigger] r.1.contains(x) && !s.1.contains(x) ==> exists|k: int| s.2.len() <= k < r.2.len() && (#[trigger] r.2[k]).1 == x
        }),
    decreases outs.len(),
{
    let r = visit_all(s, outs, depth);
    if outs.len() > 0 {
        let o = outs.drop_last();
        let p = outs.last();
        lemma_visit_all_sets(s, o, depth);
        lemma_visit_all_grows(s, o, depth);
        let q = visit_all(s, o, depth);
        assert(r == visit(q, p, depth));
        if !q.1.contains(p.1) {
            assert(r.2.map_values(|t: (int, int, int)| t.1) =~= q.2.map_values(|t: (int, int, int)| t.1).push(p.1));
        }
        assert forall|x: int| #[trigger] r.1.contains(x) <==> (s.1.contains(x) || exists|i: int| 0 <= i < outs.len() && (#[trigger] outs[i]).1 == x) by {
            if r.1.contains(x) {
                if q.1.contains(x) {
                    if !s.1.contains(x) {
                        let i = choose|i: int| 0 <= i < o.len() && (#[trigger] o[i]).1 == x;
                        assert(outs[i] == o[i]);
                    }
                } else {
                    assert(x == p.1);
                    assert(outs[outs.len() - 1] == p);
                }
            }
            if s.1.contains(x) {
                assert(q.1.contains(x));
            } else if exists|i: int| 0 <= i < outs.len() && (#[trigger] outs[i]).1 == x {
                let i = choose|i: int| 0 <= i < outs.len() && (#[trigger] outs[i]).1 == x;
                if i < o.len() {
                    assert(o[i] == outs[i]);
                    assert(q.1.contains(x));
                } else {
                    assert(outs[i] == p);
                }
            }
        }
        assert forall|x: int| #[trigger] r.1.contains(x) && !s.1.contains(x) implies exists|k: int| s.2.len() <= k < r.2.len() && (#[trigger] r.2[k]).1 == x by {
            if q.1.contains(x) {
                let k = choose|k: int| s.2.len() <= k < q.2.len() && (#[trigger] q.2[k]).1 == x;
                assert(r.2[k] == q.2[k]);
            } else {
                assert(r.2[q.2.len() as int] == (p.0, p.1, depth + 1));
            }
        }
    }
}

/// Expanding a frontier keeps the queue in step with the recorded steps, visits exactly
/// the successors of the frontier, and records every node it newly visits.
proof fn lemma_expand_sets(s: SearchState, es: Seq<(int, int, Seq<char>)>, frontier: Seq<int>, depth: int)
    requires
        queued(s),
    ensures
        ({
            let r = expand(s, es, frontier, depth);
            &&& queued(r)
            &&& forall|x: int| #[trigger] r.1.contains(x) <==> (s.1.contains(x)
                || exists|e: int| 0 <= e < es.len() && frontier.contains((#[trigger] es[e]).0) && es[e].1 == x)
            &&& forall|x: int| #[trigger] r.1.contains(x) && !s.1.contains(x) ==> exists|k: int| s.2.len() <= k < r.2.len() && (#[trigger] r.2[k]).1 == x
        }),
    decreases frontier.len(),
{
    let r = expand(s, es, frontier, depth);
    if frontier.len() > 0 {
        let f = frontier.drop_last();
        let a = frontier.last();
        let outs = outgoing(es, a);
        lemma_expand_sets(s, es, f, depth);
        lemma_expand_grows(s, es, f, depth);
        let q = expand(s, es, f, depth);
        lemma_visit_all_sets(q, outs, depth);
        lemma_visit_all_grows(q, outs, depth);
        lemma_outgoing_entries(es, a);
        assert(r == visit_all(q, outs, depth));
        assert forall|x: int| #[trigger] r.1.contains(x) <==> (s.1.contains(x)
            || exists|e: int| 0 <= e < es.len() && frontier.contains((#[trigger] es[e]).0) && es[e].1 == x) by {
            if r.1.contains(x) && !s.1.contains(x) {
                if q.1.contains(x) {
                    let e = choose|e: int| 0 <= e < es.len() && f.contains((#[trigger] es[e]).0) && es[e].1 == x;
                    let j = choose|j: int| 0 <= j < f.len() && f[j] == es[e].0;
                    assert(frontier[j] == f[j]);
                } else {
                    let i = choose|i: int| 0 <= i < outs.len() && (#[trigger] outs[i]).1 == x;
                    let e = outs[i].0;
                    assert(frontier[frontier.len() - 1] == a);
                    assert(frontier.contains(es[e].0));
                }
            }
            if s.1.contains(x) {
                assert(q.1.contains(x));
            } else if exists|e: int| 0 <= e < es.len() && frontier.contains((#[trigger] es[e]).0) && es[e].1 == x {
                let e = choose|e: int| 0 <= e < es.len() && frontier.contains((#[trigger] es[e]).0) && es[e].1 == x;
                let j = choose|j: int| 0 <= j < frontier.len() && frontier[j] == es[e].0;
                if j < f.len() {
                    assert(f[j] == frontier[j]);
                    assert(f.contains(es[e].0));
                    assert(q.1.contains(x));
                } else {
                    lemma_outgoing_has(es, a, e);
                    let i = choose|i: int| 0 <= i < outs.len() && outs[i] == (e, es[e].1);
                    assert(outs[i].1 == x);
                }
            }
        }
        assert forall|x: int| #[trigger] r.1.contains(x) && !s.1.contains(x) implies exists|k: int| s.2.len() <= k < r.2.len() && (#[trigger] r.2[k]).1 == x by {
            if q.1.contains(x) {
                let k = choose|k: int| s.2.len() <= k < q.2.len() && (#[trigger] q.2[k]).1 == x;
                assert(r.2.take(q.2.len() as int)[k] == q.2[k]);
                assert(r.2[k] == q.2[k]);
            } else {
                let k = choose|k: int| q.2.len() <= k < r.2.len() && (#[trigger] r.2[k]).1 == x;
                assert(s.2.len() <= k);
            }
        }
    }
}

/// With no node at distance `depth`, no walk reaches anything new: the nodes within any
/// larger distance are those within `depth`.
proof fn lemma_within_stable(es: Seq<(int, int, Seq<char>)>, start: int, depth: int, d: int)
    requires
        0 <= depth <= d,
        forall|x: int| !#[trigger] at_distance(es, start, x, depth),
    ensures
        within_steps(es, start, d) == within_steps(es, start, depth),
    decreases d,
{
    if d > depth {
        lemma_within_stable(es, start, depth, d - 1);
        let w = within_steps(es, start, depth);
        assert forall|b: int| #[trigger] successors(es, w).contains(b) implies w.contains(b) by {
            let e = choose|e: int| 0 <= e < es.len() && w.contains((#[trigger] es[e]).0) && es[e].1 == b;
            assert(!at_distance(es, start, es[e].0, depth));
            assert(successors(es, within_steps(es, start, depth - 1)).contains(b));
        }
        assert(within_steps(es, start, d) =~= w);
    }
}

/// The breadth-first levels from a frontier holding exactly the nodes at distance
/// `depth`, with exactly the nodes within `depth` visited: every step reaches a node at
/// its distance, every node at a distance up to `max_depth` is reached, and the depths
/// never decrease.
proof fn lemma_levels_distances(es: Seq<(int, int, Seq<char>)>, start: int, frontier: Seq<int>, visited: Set<int>, depth: int, max_depth: int)
    requires
        depth >= 0,
        visited == within_steps(es, start, depth),
        forall|x: int| frontier.contains(x) <==> #[trigger] at_distance(es, start, x, depth),
    ensures
        ({
            let lv = levels(es, frontier, visited, depth, max_depth);
            &&& forall|k: int| 0 <= k < lv.len() ==> 1 <= (#[trigger] lv[k]).2 && at_distance(es, start, lv[k].1, lv[k].2)
            &&& forall|x: int, d: int| depth < d <= max_depth && #[trigger] at_distance(es, start, x, d)
                ==> exists|k: int| 0 <= k < lv.len() && (#[trigger] lv[k]).1 == x
            &&& forall|i: int, j: int| 0 <= i < j < lv.len() ==> (#[trigger] lv[i]).2 <= (#[trigger] lv[j]).2
        }),
    decreases max_depth - depth,
{
    let lv = levels(es, frontier, visited, depth, max_depth);
    if depth >= max_depth {
    } else if frontier.len() == 0 {
        assert forall|x: int| !#[trigger] at_distance(es, start, x, depth) by {
            if at_distance(es, start, x, depth) {
                assert(frontier.contains(x));
            }
        }
        assert forall|x: int, d: int| depth < d <= max_depth && #[trigger] at_distance(es, start, x, d)
            implies exists|k: int| 0 <= k < lv.len() && (#[trigger] lv[k]).1 == x by {
            lemma_within_stable(es, start, depth, d);
            lemma_within_stable(es, start, depth, d - 1);
        }
    } else {
        let a: SearchState = (Seq::empty(), visited, Seq::empty());
        assert(queued(a)) by {
            assert(a.2.map_values(|t: (int, int, int)| t.1) =~= a.0);
        }
        let st = expand(a, es, frontier, depth);
        lemma_expand_sets(a, es, frontier, depth);
        lemma_expand_grows(a, es, frontier, depth);
        let w = within_steps(es, start, depth);
        let w1 = within_steps(es, start, depth + 1);
        assert(w1 == w.union(successors(es, w)));
        assert forall|x: int| st.1.contains(x) <==> w1.contains(x) by {
            if st.1.contains(x) && !visited.contains(x) {
                let e = choose|e: int| 0 <= e < es.len() && frontier.contains((#[trigger] es[e]).0) && es[e].1 == x;
                assert(at_distance(es, start, es[e].0, depth));
                assert(successors(es, w).contains(x));
            }
            if w1.contains(x) && !w.contains(x) {
                assert(successors(es, w).contains(x));
                let e = choose|e: int| 0 <= e < es.len() && w.contains((#[trigger] es[e]).0) && es[e].1 == x;
                if at_distance(es, start, es[e].0, depth) {
                    assert(frontier.contains(es[e].0));
                } else {
                    assert(successors(es, within_steps(es, start, depth - 1)).contains(x));
                }
            }
        }
        assert(st.1 =~= w1);
        assert forall|x: int| st.0.contains(x) <==> #[trigger] at_distance(es, start, x, depth + 1) by {
            if st.0.contains(x) {
                let k = choose|k: int| 0 <= k < st.0.len() && st.0[k] == x;
                assert(st.0[k] == st.2[k].1);
            }
            if at_distance(es, start, x, depth + 1) {
                let k = choose|k: int| 0 <= k < st.2.len() && (#[trigger] st.2[k]).1 == x;
                assert(st.0[k] == x);
            }
        }
        lemma_levels_distances(es, start, st.0, st.1, depth + 1, max_depth);
        lemma_levels(es, st.0, st.1, depth + 1, max_depth);
        let rest = levels(es, st.0, st.1, depth + 1, max_depth);
        assert(lv == st.2 + rest);
        assert forall|k: int| 0 <= k < lv.len() implies 1 <= (#[trigger] lv[k]).2 && at_distance(es, start, lv[k].1, lv[k].2) by {
            if k < st.2.len() {
                assert(lv[k] == st.2[k]);
                assert(st.1.contains(st.2[k].1));
            } else {
                assert(lv[k] == rest[k - st.2.len()]);
            }
        }
        assert forall|x: int, d: int| depth < d <= max_depth && #[trigger] at_distance(es, start, x, d)
            implies exists|k: int| 0 <= k < lv.len() && (#[trigger] lv[k]).1 == x by {
            if d == depth + 1 {
                let k = choose|k: int| 0 <= k < st.2.len() && (#[trigger] st.2[k]).1 == x;
                assert(lv[k] == st.2[k]);
            } else {
                let k = choose|k: int| 0 <= k < rest.len() && (#[trigger] rest[k]).1 == x;
                assert(lv[k + st.2.len()] == rest[k]);
            }
        }
        assert forall|i: int, j: int| 0 <= i < j < lv.len() implies (#[trigger] lv[i]).2 <= (#[trigger] lv[j]).2 by {
            if j < st.2.len() {
                assert(lv[i] == st.2[i]);
                assert(lv[j] == st.2[j]);
            } else if i < st.2.len() {
                assert(lv[i] == st.2[i]);
                assert(lv[j] == rest[j - st.2.len()]);
            } else {
                assert(lv[i] == rest[i - st.2.len()]);
                assert(lv[j] == rest[j - st.2.len()]);
            }
        }
    }
}

/// A breadth-first traversal from `start` reports exactly the nodes whose distance from
/// `start` (the fewest edges on a walk to them) is between 1 and `max_depth`, each at its
/// distance, nearest first.
pub proof fn law_bfs_distances(es: Seq<(int, int, Seq<char>)>, start: int, max_depth: int)
    ensures
        ({
            let lv = levels(es, seq![start], set![start], 0, max_depth);
            &&& forall|k: int| 0 <= k < lv.len() ==> 1 <= (#[trigger] lv[k]).2 && at_distance(es, start, lv[k].1, lv[k].2)
            &&& forall|x: int, d: int| 1 <= d <= max_depth && #[trigger] at_distance(es, start, x, d)
                ==> exists|k: int| 0 <= k < lv.len() && (#[trigger] lv[k]).1 == x
            &&& forall|i: int, j: int| 0 <= i < j < lv.len() ==> (#[trigger] lv[i]).2 <= (#[trigger] lv[j]).2
        }),
{
    assert(within_steps(es, start, 0) == set![start]);
    assert forall|x: int| seq![start].contains(x) <==> #[trigger] at_distance(es, start, x, 0) by {
        if x == start {
            assert(seq![start][0] == start);
        }
    }
    lemma_levels_distances(es, start, seq![start], set![start], 0, max_depth);
}

/// Every edge of the reversed call graph joins two of the element nodes.
proof fn lemma_call_edges_bounds(names: Seq<Seq<char>>, calls: Seq<(Seq<char>, Seq<char>)>)
    ensures
        forall|e: int| 0 <= e < call_edges(names, calls).len() ==>
            0 <= (#[trigger] call_edges(names, calls)[e]).0 < names.len() && 0 <= call_edges(names, calls)[e].1 < names.len(),
    decreases calls.len(),
{
    if calls.len() > 0 {
        lemma_call_edges_bounds(names, calls.drop_last());
        let c = calls.last();
        lemma_pos_contains(names, c.0);
        lemma_pos_contains(names, c.1);
        if names.contains(c.0) && names.contains(c.1) {
            lemma_pos_found(names, c.0);
            lemma_pos_found(names, c.1);
        }
        let p = call_edges(names, calls.drop_last());
        assert forall|e: int| 0 <= e < call_edges(names, calls).len() implies
            0 <= (#[trigger] call_edges(names, calls)[e]).0 < names.len() && 0 <= call_edges(names, calls)[e].1 < names.len() by {
            if e < p.len() {
                assert(call_edges(names, calls)[e] == p[e]);
            }
        }
    }
}

/// A node at a positive distance is the target of some edge.
proof fn lemma_reached_is_target(es: Seq<(int, int, Seq<char>)>, start: int, x: int, d: int)
    requires
        d >= 1,
        at_distance(es, start, x, d),
    ensures
        exists|e: int| 0 <= e < es.len() && (#[trigger] es[e]).1 == x,
{
    assert(successors(es, within_steps(es, start, d - 1)).contains(x));
}

/// Impact analysis fails exactly when the target is not one of the elements.  Otherwise
/// it lists, by name, exactly the elements that reach the target through a chain of
/// calls (at most `u32::MAX` long): each once, never the target itself, nearest first,
/// each found at its distance; the depth reported is the deepest of those distances.
pub proof fn law_impact_callers(ids: Seq<Seq<char>>, calls: Seq<(Seq<char>, Seq<char>)>, target: Seq<char>)
    ensures
        (impact_spec(ids, calls, target) is Err) <==> !ids.contains(target),
        !ids.contains(target) ==> impact_spec(ids, calls, target) == Err::<(Seq<Seq<char>>, int, int, int, Seq<char>), Seq<char>>(symbol_missing(target)),
        ids.contains(target) ==> ({
            let names = crate::recall::dedup_first(ids);
            let es = call_edges(names, calls);
            let s = pos(names, target);
            let lv = levels(es, seq![s], set![s], 0, u32::MAX as int);
            let affected = impact_spec(ids, calls, target)->Ok_0.0;
            &&& affected == lv.map_values(|t: (int, int, int)| names[t.1])
            &&& impact_spec(ids, calls, target)->Ok_0.1 == deepest(lv)
            &&& forall|i: int, j: int| 0 <= i < j < affected.len() ==> affected[i] != affected[j]
            &&& forall|k: int| 0 <= k < affected.len() ==> #[trigger] affected[k] != target && ids.contains(affected[k])
            &&& forall|k: int| 0 <= k < lv.len() ==> 1 <= (#[trigger] lv[k]).2 && at_distance(es, s, lv[k].1, lv[k].2)
            &&& forall|x: int, d: int| 1 <= d <= u32::MAX && #[trigger] at_distance(es, s, x, d)
                ==> exists|k: int| 0 <= k < lv.len() && (#[trigger] lv[k]).1 == x
            &&& forall|i: int, j: int| 0 <= i < j < lv.len() ==> (#[trigger] lv[i]).2 <= (#[trigger] lv[j]).2
        }),
{
    let names = crate::recall::dedup_first(ids);
    crate::recall::lemma_dedup_contains(ids, target);
    crate::recall::lemma_dedup_first(ids);
    lemma_pos_contains(names, target);
    if ids.contains(target) {
        let es = call_edges(names, calls);
        let s = pos(names, target);
        lemma_pos_found(names, target);
        let lv = levels(es, seq![s], set![s], 0, u32::MAX as int);
        law_bfs_distances(es, s, u32::MAX as int);
        law_bfs_reports_once(es, s, u32::MAX as int);
        lemma_call_edges_bounds(names, calls);
        let affected = lv.map_values(|t: (int, int, int)| names[t.1]);
        assert forall|k: int| 0 <= k < lv.len() implies 0 <= (#[trigger] lv[k]).1 < names.len() by {
            lemma_reached_is_target(es, s, lv[k].1, lv[k].2);
            let e = choose|e: int| 0 <= e < es.len() && (#[trigger] es[e]).1 == lv[k].1;
        }
        assert forall|i: int, j: int| 0 <= i < j < affected.len() implies affected[i] != affected[j] by {
            assert(lv[i].1 != lv[j].1);
            assert(0 <= lv[i].1 < names.len() && 0 <= lv[j].1 < names.len());
            if lv[i].1 < lv[j].1 {
                assert(names[lv[i].1] != names[lv[j].1]);
            } else {
                assert(names[lv[j].1] != names[lv[i].1]);
            }
        }
        assert forall|k: int| 0 <= k < affected.len() implies #[trigger] affected[k] != target && ids.contains(affected[k]) by {
            assert(0 <= lv[k].1 < names.len());
            assert(lv[k].1 != s);
            assert(ids.contains(names[lv[k].1]));
            if lv[k].1 < s {
                assert(names[lv[k].1] != names[s]);
            } else {
                assert(names[s] != names[lv[k].1]);
            }
        }
    }
}

/// The traversal graph names each endpoint once, and every edge joins two of its nodes.
proof fn lemma_build_fold_ok(es: Seq<EdgeModel>)
    ensures
        forall|i: int, j: int| 0 <= i < j < build_fold(es).0.len() ==> build_fold(es).0[i] != build_fold(es).0[j],
        forall|e: int| 0 <= e < build_fold(es).1.len() ==>
            0 <= (#[trigger] build_fold(es).1[e]).0 < build_fold(es).0.len() && 0 <= build_fold(es).1[e].1 < build_fold(es).0.len(),
    decreases es.len(),
{
    if es.len() > 0 {
        lemma_build_fold_ok(es.drop_last());
        let (names, ies) = build_fold(es.drop_last());
        let e = es.last();
        let n1 = if names.contains(e.from) { names } else { names.push(e.from) };
        let n2 = if n1.contains(e.to) { n1 } else { n1.push(e.to) };
        assert(n1.contains(e.from)) by {
            if !names.contains(e.from) {
                assert(n1[names.len() as int] == e.from);
            }
        }
        assert(n2.contains(e.from)) by {
            let i = choose|i: int| 0 <= i < n1.len() && n1[i] == e.from;
            assert(n2[i] == e.from);
        }
        assert(n2.contains(e.to)) by {
            if !n1.contains(e.to) {
                assert(n2[n1.len() as int] == e.to);
            }
        }
        assert forall|i: int, j: int| 0 <= i < j < n1.len() implies n1[i] != n1[j] by {
            if j == names.len() {
                assert(n1[i] == names[i]);
                assert(names.contains(names[i]));
            }
        }
        assert forall|i: int, j: int| 0 <= i < j < n2.len() implies n2[i] != n2[j] by {
            if j == n1.len() {
                assert(n2[i] == n1[i]);
                assert(n1.contains(n1[i]));
            }
        }
        lemma_pos_contains(n2, e.from);
        lemma_pos_contains(n2, e.to);
        lemma_pos_found(n2, e.from);
        lemma_pos_found(n2, e.to);
        let ies2 = ies.push((pos(n2, e.from), pos(n2, e.to), e.relation_type));
        assert(build_fold(es) == (n2, ies2));
        assert forall|k: int| 0 <= k < ies2.len() implies 0 <= (#[trigger] ies2[k]).0 < n2.len() && 0 <= ies2[k].1 < n2.len() by {
            if k < ies.len() {
                assert(ies2[k] == ies[k]);
            }
        }
    }
}

pub open spec fn named_steps(names: Seq<Seq<char>>, es: Seq<(int, int, Seq<char>)>, lv: Seq<(int, int, int)>) -> Seq<(Seq<char>, Seq<char>, int)> {
    lv.map_values(|t: (int, int, int)| (names[t.1], es[t.0].2, t.2))
}

/// What `law_bfs_names` states, for a start that names node `s`.
pub open spec fn bfs_by_name(names: Seq<Seq<char>>, es: Seq<(int, int, Seq<char>)>, s: int, start: Seq<char>,
    max_depth: int, out: Seq<(Seq<char>, Seq<char>, int)>) -> bool
{
    &&& max_depth <= 0 ==> out.len() == 0
    &&& forall|i: int, j: int| 0 <= i < j < out.len() ==> out[i].0 != out[j].0
    &&& forall|k: int| 0 <= k < out.len() ==> (#[trigger] out[k]).0 != start
    &&& forall|k: int| 0 <= k < out.len() ==> exists|x: int| 0 <= x < names.len()
        && names[x] == (#[trigger] out[k]).0 && 1 <= out[k].2 <= max_depth && at_distance(es, s, x, out[k].2)
    &&& forall|x: int, d: int| 0 <= x < names.len() && 1 <= d <= max_depth && #[trigger] at_distance(es, s, x, d)
        ==> exists|k: int| 0 <= k < out.len() && (#[trigger] out[k]).0 == names[x] && out[k].2 == d
    &&& forall|i: int, j: int| 0 <= i < j < out.len() ==> (#[trigger] out[i]).2 <= (#[trigger] out[j]).2
}

proof fn lemma_levels_in_range(es: Seq<(int, int, Seq<char>)>, s: int, max_depth: int, n: int)
    requires
        forall|e: int| 0 <= e < es.len() ==> 0 <= (#[trigger] es[e]).0 < n && 0 <= es[e].1 < n,
    ensures
        forall|k: int| 0 <= k < levels(es, seq![s], set![s], 0, max_depth).len() ==>
            0 <= (#[trigger] levels(es, seq![s], set![s], 0, max_depth)[k]).1 < n,
{
    let lv = levels(es, seq![s], set![s], 0, max_depth);
    law_bfs_distances(es, s, max_depth);
    assert forall|k: int| 0 <= k < lv.len() implies 0 <= (#[trigger] lv[k]).1 < n by {
        lemma_reached_is_target(es, s, lv[k].1, lv[k].2);
        let e = choose|e: int| 0 <= e < es.len() && (#[trigger] es[e]).1 == lv[k].1;
    }
}

#[verifier::rlimit(40)]
proof fn lemma_bfs_by_name(names: Seq<Seq<char>>, es: Seq<(int, int, Seq<char>)>, s: int, start: Seq<char>, max_depth: int)
    requires
        forall|i: int, j: int| 0 <= i < j < names.len() ==> names[i] != names[j],
        forall|e: int| 0 <= e < es.len() ==> 0 <= (#[trigger] es[e]).0 < names.len() && 0 <= es[e].1 < names.len(),
        0 <= s < names.len(),
        names[s] == start,
    ensures
        bfs_by_name(names, es, s, start, max_depth, named_steps(names, es, levels(es, seq![s], set![s], 0, max_depth))),
{
    let lv = levels(es, seq![s], set![s], 0, max_depth);
    let out = named_steps(names, es, lv);
    lemma_levels_in_range(es, s, max_depth, names.len() as int);
    assert(out.len() == lv.len());
    assert forall|k: int| 0 <= k < out.len() implies (#[trigger] out[k]).0 == names[lv[k].1] && out[k].2 == lv[k].2 by {}
    assert(max_depth <= 0 ==> out.len() == 0) by {
        law_bfs_reports_once(es, s, max_depth);
        if max_depth <= 0 && lv.len() > 0 {
            assert(1 <= lv[0].2 <= max_depth);
        }
    }
    assert forall|i: int, j: int| 0 <= i < j < out.len() implies out[i].0 != out[j].0 by {
        law_bfs_reports_once(es, s, max_depth);
        assert(lv[i].1 != lv[j].1);
        assert(out[i].0 == names[lv[i].1] && out[j].0 == names[lv[j].1]);
        if lv[i].1 < lv[j].1 {
            assert(names[lv[i].1] != names[lv[j].1]);
        } else {
            assert(names[lv[j].1] != names[lv[i].1]);
        }
    }
    assert forall|k: int| 0 <= k < out.len() implies (#[trigger] out[k]).0 != start by {
        law_bfs_reports_once(es, s, max_depth);
        assert(lv[k].1 != s);
        assert(out[k].0 == names[lv[k].1]);
        if lv[k].1 < s {
            assert(names[lv[k].1] != names[s]);
        } else {
            assert(names[s] != names[lv[k].1]);
        }
    }
    assert forall|k: int| 0 <= k < out.len() implies exists|x: int| 0 <= x < names.len()
        && names[x] == (#[trigger] out[k]).0 && 1 <= out[k].2 <= max_depth && at_distance(es, s, x, out[k].2) by {
        law_bfs_distances(es, s, max_depth);
        law_bfs_reports_once(es, s, max_depth);
        assert(out[k].0 == names[lv[k].1]);
        assert(at_distance(es, s, lv[k].1, lv[k].2));
    }
    assert forall|x: int, d: int| 0 <= x < names.len() && 1 <= d <= max_depth && #[trigger] at_distance(es, s, x, d)
        implies exists|k: int| 0 <= k < out.len() && (#[trigger] out[k]).0 == names[x] && out[k].2 == d by {
        law_bfs_distances(es, s, max_depth);
        let k = choose|k: int| 0 <= k < lv.len() && (#[trigger] lv[k]).1 == x;
        assert(at_distance(es, s, x, lv[k].2) && 1 <= lv[k].2);
        lemma_distance_unique(es, s, x, d, lv[k].2);
        assert(out[k].0 == names[x]);
    }
    assert forall|i: int, j: int| 0 <= i < j < out.len() implies (#[trigger] out[i]).2 <= (#[trigger] out[j]).2 by {
        law_bfs_distances(es, s, max_depth);
        assert(lv[i].2 <= lv[j].2);
    }
}

/// A breadth-first traversal by name: nothing when the start names no node of the
/// traversal graph; otherwise each name at most once and never the start, exactly the
/// names of the nodes whose distance from the start is between 1 and `max_depth`, each
/// with that distance as its depth, nearest first, and nothing at all when `max_depth`
/// is 0.
pub proof fn law_bfs_names(edges: Seq<EdgeModel>, scope: MemoryScope, start: Seq<char>, max_depth: int)
    ensures
        ({
            let names = traversal_graph(edges, scope).0;
            let es = traversal_graph(edges, scope).1;
            let out = bfs_spec(edges, scope, start, max_depth);
            &&& !names.contains(start) ==> out.len() == 0
            &&& names.contains(start) ==> bfs_by_name(names, es, pos(names, start), start, max_depth, out)
        }),
{
    let names = traversal_graph(edges, scope).0;
    let es = traversal_graph(edges, scope).1;
    let s = pos(names, start);
    lemma_pos_contains(names, start);
    lemma_build_fold_ok(edges.filter(traversable(scope)));
    if s >= 0 {
        lemma_pos_found(names, start);
        lemma_bfs_by_name(names, es, s, start, max_depth);
        assert(bfs_spec(edges, scope, start, max_depth) == named_steps(names, es, levels(es, seq![s], set![s], 0, max_depth)));
    }
}

/// The nodes within a distance include those within any smaller one.
proof fn lemma_within_grows(es: Seq<(int, int, Seq<char>)>, start: int, a: int, b: int)
    requires
        0 <= a <= b,
    ensures
        within_steps(es, start, a).subset_of(within_steps(es, start, b)),
    decreases b - a,
{
    if a < b {
        lemma_within_grows(es, start, a, b - 1);
    }
}

/// A node has one distance.
proof fn lemma_distance_unique(es: Seq<(int, int, Seq<char>)>, start: int, x: int, d1: int, d2: int)
    requires
        1 <= d1,
        1 <= d2,
        at_distance(es, start, x, d1),
        at_distance(es, start, x, d2),
    ensures
        d1 == d2,
{
    if d1 < d2 {
        lemma_within_grows(es, start, d1, d2 - 1);
    } else if d2 < d1 {
        lemma_within_grows(es, start, d2, d1 - 1);
    }
}

proof fn lemma_chain_visit_all_members(next: Seq<int>, es: Seq<(int, int, Seq<char>)>, outs: Seq<(int, int)>, rel: Seq<char>)
    ensures
        forall|y: int| #[trigger] chain_visit_all(next, es, outs, rel).contains(y) <==>
            (next.contains(y) || exists|i: int| 0 <= i < outs.len() && es[(#[trigger] outs[i]).0].2 == rel && outs[i].1 == y),
        next.no_duplicates() ==> chain_visit_all(next, es, outs, rel).no_duplicates(),
    decreases outs.len(),
{
    if outs.len() > 0 {
        let o = outs.drop_last();
        let p = outs.last();
        lemma_chain_visit_all_members(next, es, o, rel);
        let q = chain_visit_all(next, es, o, rel);
        let r = chain_visit_all(next, es, outs, rel);
        assert(r == chain_visit(q, es, p, rel));
        assert forall|y: int| #[trigger] r.contains(y) <==>
            (next.contains(y) || exists|i: int| 0 <= i < outs.len() && es[(#[trigger] outs[i]).0].2 == rel && outs[i].1 == y) by {
            if r.contains(y) && !q.contains(y) {
                let k = choose|k: int| 0 <= k < r.len() && r[k] == y;
                assert(k == q.len());
                assert(outs[outs.len() - 1] == p);
            }
            if q.contains(y) {
                let k = choose|k: int| 0 <= k < q.len() && q[k] == y;
                assert(r[k] == y);
                if !next.contains(y) {
                    let i = choose|i: int| 0 <= i < o.len() && es[(#[trigger] o[i]).0].2 == rel && o[i].1 == y;
                    assert(outs[i] == o[i]);
                }
            }
            if next.contains(y) {
                assert(q.contains(y));
            }
            if exists|i: int| 0 <= i < outs.len() && es[(#[trigger] outs[i]).0].2 == rel && outs[i].1 == y {
                let i = choose|i: int| 0 <= i < outs.len() && es[(#[trigger] outs[i]).0].2 == rel && outs[i].1 == y;
                if i < o.len() {
                    assert(o[i] == outs[i]);
                    assert(q.contains(y));
                } else if !q.contains(y) {
                    assert(outs[i] == p);
                    assert(r[q.len() as int] == y);
                }
            }
            if q.contains(y) {
                let k = choose|k: int| 0 <= k < q.len() && q[k] == y;
                assert(r[k] == y);
            }
        }
    }
}

proof fn lemma_chain_step_members(es: Seq<(int, int, Seq<char>)>, cur: Seq<int>, rel: Seq<char>)
    ensures
        forall|y: int| #[trigger] chain_step(es, cur, rel).contains(y) <==>
            exists|e: int| 0 <= e < es.len() && cur.contains((#[trigger] es[e]).0) && es[e].2 == rel && es[e].1 == y,
        chain_step(es, cur, rel).no_duplicates(),
    decreases cur.len(),
{
    if cur.len() > 0 {
        let c = cur.drop_last();
        let a = cur.last();
        lemma_chain_step_members(es, c, rel);
        let q = chain_step(es, c, rel);
        let outs = outgoing(es, a);
        lemma_chain_visit_all_members(q, es, outs, rel);
        lemma_outgoing_entries(es, a);
        let r = chain_step(es, cur, rel);
        assert forall|y: int| #[trigger] r.contains(y) <==>
            exists|e: int| 0 <= e < es.len() && cur.contains((#[trigger] es[e]).0) && es[e].2 == rel && es[e].1 == y by {
            if r.contains(y) {
                if q.contains(y) {
                    let e = choose|e: int| 0 <= e < es.len() && c.contains((#[trigger] es[e]).0) && es[e].2 == rel && es[e].1 == y;
                    let j = choose|j: int| 0 <= j < c.len() && c[j] == es[e].0;
                    assert(cur[j] == c[j]);
                } else {
                    let i = choose|i: int| 0 <= i < outs.len() && es[(#[trigger] outs[i]).0].2 == rel && outs[i].1 == y;
                    let e = outs[i].0;
                    assert(cur[cur.len() - 1] == a);
                    assert(cur.contains(es[e].0));
                }
            }
            if exists|e: int| 0 <= e < es.len() && cur.contains((#[trigger] es[e]).0) && es[e].2 == rel && es[e].1 == y {
                let e = choose|e: int| 0 <= e < es.len() && cur.contains((#[trigger] es[e]).0) && es[e].2 == rel && es[e].1 == y;
                let j = choose|j: int| 0 <= j < cur.len() && cur[j] == es[e].0;
                if j < c.len() {
                    assert(c[j] == cur[j]);
                    assert(c.contains(es[e].0));
                    assert(q.contains(y));
                } else {
                    lemma_outgoing_has(es, a, e);
                    let i = choose|i: int| 0 <= i < outs.len() && outs[i] == (e, es[e].1);
                    assert(es[outs[i].0].2 == rel && outs[i].1 == y);
                }
            }
        }
    } else {
        assert(chain_step(es, cur, rel) =~= Seq::<int>::empty());
    }
}

/// The traversal graph has one edge per version, in order, between the nodes of the
/// version's endpoints, and its nodes are exactly the endpoints.
proof fn lemma_build_fold_edges(fe: Seq<EdgeModel>)
    ensures
        ({
            let (n, ies) = build_fold(fe);
            &&& ies.len() == fe.len()
            &&& forall|i: int| 0 <= i < fe.len() ==> n.contains((#[trigger] fe[i]).from) && n.contains(fe[i].to)
                && ies[i] == (pos(n, fe[i].from), pos(n, fe[i].to), fe[i].relation_type)
            &&& forall|x: Seq<char>| #[trigger] n.contains(x) ==> exists|i: int| 0 <= i < fe.len() && ((#[trigger] fe[i]).from == x || fe[i].to == x)
        }),
    decreases fe.len(),
{
    if fe.len() > 0 {
        let d = fe.drop_last();
        lemma_build_fold_edges(d);
        let (names, ies) = build_fold(d);
        let e = fe.last();
        let n1 = if names.contains(e.from) { names } else { names.push(e.from) };
        let n2 = if n1.contains(e.to) { n1 } else { n1.push(e.to) };
        let ies2 = ies.push((pos(n2, e.from), pos(n2, e.to), e.relation_type));
        assert(build_fold(fe) == (n2, ies2));
        assert forall|y: Seq<char>| names.contains(y) implies n2.contains(y) && pos(n2, y) == pos(names, y) by {
            let k = choose|k: int| 0 <= k < names.len() && names[k] == y;
            if !names.contains(e.from) {
                lemma_pos_push(names, e.from, y);
                assert(n1[k] == y);
            }
            assert(n1.contains(y));
            if !n1.contains(e.to) {
                lemma_pos_push(n1, e.to, y);
                let k1 = choose|k1: int| 0 <= k1 < n1.len() && n1[k1] == y;
                assert(n2[k1] == y);
            }
        }
        assert(n2.contains(e.from)) by {
            if names.contains(e.from) {
            } else {
                assert(n1[names.len() as int] == e.from);
                if !n1.contains(e.to) {
                    assert(n2[names.len() as int] == e.from);
                }
            }
        }
        assert(n2.contains(e.to)) by {
            if !n1.contains(e.to) {
                assert(n2[n1.len() as int] == e.to);
            }
        }
        assert forall|i: int| 0 <= i < fe.len() implies n2.contains((#[trigger] fe[i]).from) && n2.contains(fe[i].to)
            && ies2[i] == (pos(n2, fe[i].from), pos(n2, fe[i].to), fe[i].relation_type) by {
            if i < d.len() {
                assert(fe[i] == d[i]);
                assert(names.contains(d[i].from) && names.contains(d[i].to));
                assert(ies2[i] == ies[i]);
            } else {
                assert(fe[i] == e);
            }
        }
        assert forall|x: Seq<char>| #[trigger] n2.contains(x) implies exists|i: int| 0 <= i < fe.len() && ((#[trigger] fe[i]).from == x || fe[i].to == x) by {
            if names.contains(x) {
                let i = choose|i: int| 0 <= i < d.len() && ((#[trigger] d[i]).from == x || d[i].to == x);
                assert(fe[i] == d[i]);
            } else {
                let k = choose|k: int| 0 <= k < n2.len() && n2[k] == x;
                if k < names.len() {
                    assert(n2[k] == names[k]) by {
                        if !names.contains(e.from) { assert(n1[k] == names[k]); }
                        if !n1.contains(e.to) { assert(n2[k] == n1[k]); }
                    }
                    assert(names.contains(x));
                } else {
                    assert(x == e.from || x == e.to) by {
                        if !names.contains(e.from) && k == names.len() {
                            if !n1.contains(e.to) { assert(n2[k] == n1[k]); }
                        } else if !names.contains(e.from) {
                            assert(k == n1.len());
                        } else {
                            assert(k == n1.len());
                        }
                    }
                    assert(fe[fe.len() - 1] == e);
                }
            }
        }
    }
}

/// A one-link relation chain follows only relations of the requested type: from `start`
/// along `rel` it reaches exactly the targets of the active relations in reach of `scope`
/// of type `rel` whose source is `start`, each once.
pub proof fn law_chain_follows_type(edges: Seq<EdgeModel>, scope: MemoryScope, start: Seq<char>, rel: Seq<char>)
    ensures
        forall|x: Seq<char>| #[trigger] chain_spec(edges, scope, start, seq![rel]).contains(x) <==>
            exists|e: int| 0 <= e < edges.len() && traversable(scope)(#[trigger] edges[e])
                && edges[e].from == start && edges[e].relation_type == rel && edges[e].to == x,
        chain_spec(edges, scope, start, seq![rel]).no_duplicates(),
{
    let fe = edges.filter(traversable(scope));
    let (names, es) = build_fold(fe);
    lemma_build_fold_edges(fe);
    lemma_build_fold_ok(fe);
    crate::graph::lemma_filter_members(edges, traversable(scope));
    let s = pos(names, start);
    lemma_pos_contains(names, start);
    let out = chain_spec(edges, scope, start, seq![rel]);
    if s < 0 {
        assert(out =~= Seq::<Seq<char>>::empty());
        assert forall|x: Seq<char>| #[trigger] out.contains(x) <==>
            exists|e: int| 0 <= e < edges.len() && traversable(scope)(#[trigger] edges[e])
                && edges[e].from == start && edges[e].relation_type == rel && edges[e].to == x by {
            if exists|e: int| 0 <= e < edges.len() && traversable(scope)(#[trigger] edges[e])
                && edges[e].from == start && edges[e].relation_type == rel && edges[e].to == x {
                let e = choose|e: int| 0 <= e < edges.len() && traversable(scope)(#[trigger] edges[e])
                    && edges[e].from == start && edges[e].relation_type == rel && edges[e].to == x;
                assert(fe.contains(edges[e]));
                let i = choose|i: int| 0 <= i < fe.len() && fe[i] == edges[e];
                assert(names.contains(fe[i].from));
            }
        }
    } else {
        lemma_pos_found(names, start);
        let step = chain_step(es, seq![s], rel);
        assert(seq![rel].drop_last() =~= Seq::<Seq<char>>::empty());
        assert(seq![rel].last() == rel);
        assert(follow_chain(es, seq![s], Seq::<Seq<char>>::empty()) == seq![s]);
        assert(follow_chain(es, seq![s], seq![rel]) == step);
        lemma_chain_step_members(es, seq![s], rel);
        assert(out == step.map_values(|i: int| names[i]));
        // positions of names are the names themselves
        assert forall|a: Seq<char>, b: Seq<char>| names.contains(a) && names.contains(b) && pos(names, a) == pos(names, b) implies a == b by {
            lemma_pos_contains(names, a);
            lemma_pos_contains(names, b);
            lemma_pos_found(names, a);
            lemma_pos_found(names, b);
        }
        assert forall|x: Seq<char>| #[trigger] out.contains(x) <==>
            exists|e: int| 0 <= e < edges.len() && traversable(scope)(#[trigger] edges[e])
                && edges[e].from == start && edges[e].relation_type == rel && edges[e].to == x by {
            if out.contains(x) {
                let k = choose|k: int| 0 <= k < out.len() && out[k] == x;
                assert(step.contains(step[k]));
                let e = choose|e: int| 0 <= e < es.len() && seq![s].contains((#[trigger] es[e]).0) && es[e].2 == rel && es[e].1 == step[k];
                assert(seq![s][0] == s);
                assert(es[e].0 == s) by {
                    let j = choose|j: int| 0 <= j < 1 && seq![s][j] == es[e].0;
                }
                assert(es[e] == (pos(names, fe[e].from), pos(names, fe[e].to), fe[e].relation_type));
                lemma_pos_contains(names, fe[e].from);
                lemma_pos_contains(names, fe[e].to);
                lemma_pos_found(names, fe[e].from);
                lemma_pos_found(names, fe[e].to);
                assert(fe[e].from == start);
                assert(names[step[k]] == fe[e].to);
                assert(edges.contains(fe[e]) && traversable(scope)(fe[e]));
                let j = choose|j: int| 0 <= j < edges.len() && edges[j] == fe[e];
                assert(edges[j].to == x);
            }
            if exists|e: int| 0 <= e < edges.len() && traversable(scope)(#[trigger] edges[e])
                && edges[e].from == start && edges[e].relation_type == rel && edges[e].to == x {
                let j = choose|j: int| 0 <= j < edges.len() && traversable(scope)(#[trigger] edges[j])
                    && edges[j].from == start && edges[j].relation_type == rel && edges[j].to == x;
                assert(fe.contains(edges[j]));
                let e = choose|e: int| 0 <= e < fe.len() && fe[e] == edges[j];
                assert(es[e] == (pos(names, fe[e].from), pos(names, fe[e].to), fe[e].relation_type));
                assert(seq![s].contains(es[e].0)) by {
                    assert(seq![s][0] == es[e].0);
                }
                assert(step.contains(es[e].1));
                let k = choose|k: int| 0 <= k < step.len() && step[k] == es[e].1;
                lemma_pos_found(names, x);
                assert(out[k] == x);
            }
        }
        assert(out.no_duplicates()) by {
            assert forall|a: int, b: int| 0 <= a < out.len() && 0 <= b < out.len() && a != b implies out[a] != out[b] by {
                assert(step[a] != step[b]);
                assert(step.contains(step[a]) && step.contains(step[b]));
                let ea = choose|e: int| 0 <= e < es.len() && seq![s].contains((#[trigger] es[e]).0) && es[e].2 == rel && es[e].1 == step[a];
                let eb = choose|e: int| 0 <= e < es.len() && seq![s].contains((#[trigger] es[e]).0) && es[e].2 == rel && es[e].1 == step[b];
                assert(0 <= step[a] < names.len() && 0 <= step[b] < names.len());
                if step[a] < step[b] {
                    assert(names[step[a]] != names[step[b]]);
                } else {
                    assert(names[step[b]] != names[step[a]]);
                }
            }
        }
    }
}

/// The nodes a chain reaches are nodes of the graph.
proof fn lemma_follow_chain_in_range(es: Seq<(int, int, Seq<char>)>, s: int, rels: Seq<Seq<char>>, n: int)
    requires
        0 <= s < n,
        forall|e: int| 0 <= e < es.len() ==> 0 <= (#[trigger] es[e]).0 < n && 0 <= es[e].1 < n,
    ensures
        forall|k: int| 0 <= k < follow_chain(es, seq![s], rels).len() ==> 0 <= #[trigger] follow_chain(es, seq![s], rels)[k] < n,
    decreases rels.len(),
{
    if rels.len() == 0 {
        assert forall|k: int| 0 <= k < follow_chain(es, seq![s], rels).len() implies 0 <= #[trigger] follow_chain(es, seq![s], rels)[k] < n by {
            assert(seq![s][k] == s);
        }
    } else {
        let cur = follow_chain(es, seq![s], rels.drop_last());
        let step = chain_step(es, cur, rels.last());
        lemma_chain_step_members(es, cur, rels.last());
        assert(follow_chain(es, seq![s], rels) == step);
        assert forall|k: int| 0 <= k < step.len() implies 0 <= #[trigger] step[k] < n by {
            assert(step.contains(step[k]));
            let e = choose|e: int| 0 <= e < es.len() && cur.contains((#[trigger] es[e]).0) && es[e].2 == rels.last() && es[e].1 == step[k];
        }
    }
}

/// Distinct names: each sits at its own position.
proof fn lemma_pos_of_distinct(names: Seq<Seq<char>>, i: int)
    requires
        forall|a: int, b: int| 0 <= a < b < names.len() ==> names[a] != names[b],
        0 <= i < names.len(),
    ensures
        pos(names, names[i]) == i,
{
    lemma_pos(names, names[i], i);
}

/// Each link of a relation chain follows only relations of its type: the names reached by
/// following `rels` and then `rel` are exactly the targets of the active relations in
/// reach of `scope` of type `rel` whose source was reached by following `rels`, each once.
pub proof fn law_chain_link(edges: Seq<EdgeModel>, scope: MemoryScope, start: Seq<char>, rels: Seq<Seq<char>>, rel: Seq<char>)
    ensures
        forall|x: Seq<char>| #[trigger] chain_spec(edges, scope, start, rels.push(rel)).contains(x) <==>
            exists|e: int| 0 <= e < edges.len() && traversable(scope)(#[trigger] edges[e])
                && edges[e].relation_type == rel && edges[e].to == x
                && chain_spec(edges, scope, start, rels).contains(edges[e].from),
        chain_spec(edges, scope, start, rels.push(rel)).no_duplicates(),
{
    let fe = edges.filter(traversable(scope));
    let (names, es) = build_fold(fe);
    lemma_build_fold_edges(fe);
    lemma_build_fold_ok(fe);
    crate::graph::lemma_filter_members(edges, traversable(scope));
    let s = pos(names, start);
    lemma_pos_contains(names, start);
    let out = chain_spec(edges, scope, start, rels.push(rel));
    let before = chain_spec(edges, scope, start, rels);
    if s < 0 {
        assert(out =~= Seq::<Seq<char>>::empty());
        assert(before =~= Seq::<Seq<char>>::empty());
    } else {
        lemma_pos_found(names, start);
        let cur = follow_chain(es, seq![s], rels);
        let step = chain_step(es, cur, rel);
        assert(rels.push(rel).drop_last() =~= rels);
        assert(follow_chain(es, seq![s], rels.push(rel)) == step);
        lemma_chain_step_members(es, cur, rel);
        lemma_follow_chain_in_range(es, s, rels, names.len() as int);
        assert(out == step.map_values(|i: int| names[i]));
        assert(before == cur.map_values(|i: int| names[i]));
        assert forall|x: Seq<char>| #[trigger] out.contains(x) <==>
            exists|e: int| 0 <= e < edges.len() && traversable(scope)(#[trigger] edges[e])
                && edges[e].relation_type == rel && edges[e].to == x && before.contains(edges[e].from) by {
            if out.contains(x) {
                let k = choose|k: int| 0 <= k < out.len() && out[k] == x;
                assert(step.contains(step[k]));
                let e = choose|e: int| 0 <= e < es.len() && cur.contains((#[trigger] es[e]).0) && es[e].2 == rel && es[e].1 == step[k];
                assert(es[e] == (pos(names, fe[e].from), pos(names, fe[e].to), fe[e].relation_type));
                lemma_pos_contains(names, fe[e].from);
                lemma_pos_contains(names, fe[e].to);
                lemma_pos_found(names, fe[e].from);
                lemma_pos_found(names, fe[e].to);
                let j = choose|j: int| 0 <= j < cur.len() && cur[j] == es[e].0;
                assert(before[j] == fe[e].from);
                assert(edges.contains(fe[e]) && traversable(scope)(fe[e]));
                let g = choose|g: int| 0 <= g < edges.len() && edges[g] == fe[e];
                assert(edges[g].to == x);
            }
            if exists|e: int| 0 <= e < edges.len() && traversable(scope)(#[trigger] edges[e])
                && edges[e].relation_type == rel && edges[e].to == x && before.contains(edges[e].from) {
                let g = choose|g: int| 0 <= g < edges.len() && traversable(scope)(#[trigger] edges[g])
                    && edges[g].relation_type == rel && edges[g].to == x && before.contains(edges[g].from);
                assert(fe.contains(edges[g]));
                let e = choose|e: int| 0 <= e < fe.len() && fe[e] == edges[g];
                assert(es[e] == (pos(names, fe[e].from), pos(names, fe[e].to), fe[e].relation_type));
                let j = choose|j: int| 0 <= j < before.len() && before[j] == edges[g].from;
                assert(0 <= cur[j] < names.len());
                lemma_pos_of_distinct(names, cur[j]);
                assert(es[e].0 == cur[j]);
                assert(cur.contains(es[e].0));
                assert(step.contains(es[e].1));
                let k = choose|k: int| 0 <= k < step.len() && step[k] == es[e].1;
                lemma_pos_contains(names, x);
                lemma_pos_found(names, x);
                assert(out[k] == x);
            }
        }
        assert(out.no_duplicates()) by {
            assert forall|a: int, b: int| 0 <= a < out.len() && 0 <= b < out.len() && a != b implies out[a] != out[b] by {
                assert(step[a] != step[b]);
                assert(step.contains(step[a]) && step.contains(step[b]));
                let ea = choose|e: int| 0 <= e < es.len() && cur.contains((#[trigger] es[e]).0) && es[e].2 == rel && es[e].1 == step[a];
                let eb = choose|e: int| 0 <= e < es.len() && cur.contains((#[trigger] es[e]).0) && es[e].2 == rel && es[e].1 == step[b];
                if step[a] < step[b] {
                    assert(names[step[a]] != names[step[b]]);
                } else {
                    assert(names[step[b]] != names[step[a]]);
                }
            }
        }
    }
}

/// An empty chain reaches only its start, and only when the start is an endpoint of an
/// active relation in reach of `scope`; so does every chain from any other start: nothing.
pub proof fn law_chain_start(edges: Seq<EdgeModel>, scope: MemoryScope, start: Seq<char>, rels: Seq<Seq<char>>)
    ensures
        (exists|e: int| 0 <= e < edges.len() && traversable(scope)(#[trigger] edges[e]) && (edges[e].from == start || edges[e].to == start))
            ==> chain_spec(edges, scope, start, Seq::empty()) == seq![start],
        !(exists|e: int| 0 <= e < edges.len() && traversable(scope)(#[trigger] edges[e]) && (edges[e].from == start || edges[e].to == start))
            ==> chain_spec(edges, scope, start, rels) == Seq::<Seq<char>>::empty(),
{
    let fe = edges.filter(traversable(scope));
    let (names, es) = build_fold(fe);
    lemma_build_fold_edges(fe);
    crate::graph::lemma_filter_members(edges, traversable(scope));
    lemma_pos_contains(names, start);
    if exists|e: int| 0 <= e < edges.len() && traversable(scope)(#[trigger] edges[e]) && (edges[e].from == start || edges[e].to == start) {
        let g = choose|g: int| 0 <= g < edges.len() && traversable(scope)(#[trigger] edges[g]) && (edges[g].from == start || edges[g].to == start);
        assert(fe.contains(edges[g]));
        let i = choose|i: int| 0 <= i < fe.len() && fe[i] == edges[g];
        assert(names.contains(fe[i].from) && names.contains(fe[i].to));
        lemma_pos_found(names, start);
        assert(seq![pos(names, start)].map_values(|i: int| names[i]) =~= seq![start]);
    } else {
        if names.contains(start) {
            let i = choose|i: int| 0 <= i < fe.len() && ((#[trigger] fe[i]).from == start || fe[i].to == start);
            assert(edges.contains(fe[i]) && traversable(scope)(fe[i]));
            let g = choose|g: int| 0 <= g < edges.len() && edges[g] == fe[i];
            assert(traversable(scope)(edges[g]) && (edges[g].from == start || edges[g].to == start));
        }
    }
}

} // verus!
