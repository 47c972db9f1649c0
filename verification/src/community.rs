//! Communities: the connected components of the visible graph, each summarised by its
//! members and their observations.
use vstd::prelude::*;
use petgraph::graph::{NodeIndex, UnGraph};
use petgraph::Undirected;
use crate::graph::{GraphMemory, Entity, Relation, EntityModel, RelationModel, entity_views, relation_views,
    visible_entities, visible_relations, seq_lt, string_lt};
use crate::scope::MemoryScope;
use crate::fusion::{join, join_strings, first_index, lemma_first_index};
use crate::recall::string_views;
use crate::codebase::{decimal, decimal_string};
use crate::text::{owned, str_eq};

verus! {

#[verifier::external_type_specification]
#[verifier::external_body]
pub struct ExUndirected(Undirected);

/// The node weights of an undirected graph, by node index.
pub uninterp spec fn ungraph_nodes(g: UnGraph<String, ()>) -> Seq<Seq<char>>;

/// The edges of an undirected graph, by edge index, as (endpoint, endpoint).
pub uninterp spec fn ungraph_edges(g: UnGraph<String, ()>) -> Seq<(int, int)>;

/// `petgraph::algo::tarjan_scc` on the undirected graph with `n` nodes and these edges:
/// its connected components, in the order the algorithm finishes them, each as node
/// indices in the algorithm's order.
pub uninterp spec fn tarjan_components(n: int, edges: Seq<(int, int)>) -> Seq<Seq<int>>;

/// `Graph::new_undirected`.
#[verifier::external_body]
fn ungraph_new() -> (g: UnGraph<String, ()>)
    ensures
        ungraph_nodes(g) == Seq::<Seq<char>>::empty(),
        ungraph_edges(g) == Seq::<(int, int)>::empty(),
{
    UnGraph::new_undirected()
}

/// `Graph::add_node`: appends a node.  Panics at the index limit, which the requirement
/// rules out.
#[verifier::external_body]
fn ungraph_add_node(g: &mut UnGraph<String, ()>, w: String)
    requires
        ungraph_nodes(*old(g)).len() < u32::MAX,
    ensures
        ungraph_nodes(*final(g)) == ungraph_nodes(*old(g)).push(w@),
        ungraph_edges(*final(g)) == ungraph_edges(*old(g)),
{
    g.add_node(w);
}

/// `Graph::add_edge` between existing nodes.  Panics on missing endpoints or at the index
/// limit, which the requirements rule out.
#[verifier::external_body]
fn ungraph_add_edge(g: &mut UnGraph<String, ()>, a: usize, b: usize)
    requires
        a < ungraph_nodes(*old(g)).len(),
        b < ungraph_nodes(*old(g)).len(),
        ungraph_edges(*old(g)).len() < u32::MAX,
    ensures
        ungraph_nodes(*final(g)) == ungraph_nodes(*old(g)),
        ungraph_edges(*final(g)) == ungraph_edges(*old(g)).push((a as int, b as int)),
{
    g.add_edge(NodeIndex::new(a), NodeIndex::new(b), ());
}

pub open spec fn index_rows(v: Seq<Vec<usize>>) -> Seq<Seq<int>> {
    v.map_values(|c: Vec<usize>| c@.map_values(|i: usize| i as int))
}

/// Node `i` is listed in one of the components `rows`.
pub open spec fn listed_in(rows: Seq<Seq<int>>, i: int) -> bool {
    exists|k: int, j: int| 0 <= k < rows.len() && 0 <= j < rows[k].len() && #[trigger] rows[k][j] == i
}

/// `rows` partitions the nodes `0 .. n`: no component is empty, every node is listed
/// exactly once, and the two ends of every edge lie in the same component.
pub open spec fn partitions_nodes(rows: Seq<Seq<int>>, n: int, edges: Seq<(int, int)>) -> bool {
    &&& forall|k: int| 0 <= k < rows.len() ==> #[trigger] rows[k].len() > 0
    &&& forall|k: int, j: int| 0 <= k < rows.len() && 0 <= j < rows[k].len() ==> 0 <= #[trigger] rows[k][j] < n
    &&& forall|i: int| 0 <= i < n ==> #[trigger] listed_in(rows, i)
    &&& forall|k1: int, j1: int, k2: int, j2: int|
        0 <= k1 < rows.len() && 0 <= j1 < rows[k1].len() && 0 <= k2 < rows.len() && 0 <= j2 < rows[k2].len()
        && #[trigger] rows[k1][j1] == #[trigger] rows[k2][j2] ==> k1 == k2 && j1 == j2
    &&& forall|e: int, k: int, j: int| 0 <= e < edges.len() && 0 <= k < rows.len() && 0 <= j < rows[k].len()
        && #[trigger] rows[k][j] == (#[trigger] edges[e]).0 ==> rows[k].contains(edges[e].1)
}

/// `petgraph::algo::tarjan_scc`: on an undirected graph, where every edge can be walked
/// both ways, the strongly connected components are the connected components.  They
/// partition the nodes, so there are no more of them than nodes, and the ends of an edge
/// share one.  That the nodes of one component are connected to each other is left
/// unsaid.  The algorithm recurses along paths, so a very deep graph can exhaust the
/// stack.
#[verifier::external_body]
fn ungraph_components(g: &UnGraph<String, ()>) -> (r: Vec<Vec<usize>>)
    ensures
        index_rows(r@) == tarjan_components(ungraph_nodes(*g).len() as int, ungraph_edges(*g)),
        r.len() <= ungraph_nodes(*g).len(),
        forall|k: int, j: int| 0 <= k < r.len() && 0 <= j < r@[k].len() ==> #[trigger] r@[k]@[j] < ungraph_nodes(*g).len(),
        partitions_nodes(index_rows(r@), ungraph_nodes(*g).len() as int, ungraph_edges(*g)),
{
    petgraph::algo::tarjan_scc(g).into_iter().map(|c| c.into_iter().map(|i| i.index()).collect()).collect()
}

/// A community: its number, its members (sorted) and a summary.
#[derive(Debug, Clone)]
pub struct Community {
    pub id: u32,
    pub members: Vec<String>,
    pub summary: String,
}

impl Community {
    pub open spec fn view(&self) -> (int, Seq<Seq<char>>, Seq<char>) {
        (self.id as int, string_views(self.members@), self.summary@)
    }
}

/// The last index of `x` in `s`, or -1.
pub open spec fn last_index(s: Seq<Seq<char>>, x: Seq<char>) -> int
    decreases s.len(),
{
    if s.len() == 0 {
        -1
    } else if s.last() == x {
        s.len() - 1
    } else {
        last_index(s.drop_last(), x)
    }
}

/// The edges between entity nodes: each relation whose endpoints both name entities
/// joins the last entities of those names.
pub open spec fn community_edges(names: Seq<Seq<char>>, rels: Seq<RelationModel>) -> Seq<(int, int)>
    decreases rels.len(),
{
    if rels.len() == 0 {
        Seq::empty()
    } else {
        let p = community_edges(names, rels.drop_last());
        let r = rels.last();
        if last_index(names, r.from) >= 0 && last_index(names, r.to) >= 0 {
            p.push((last_index(names, r.from), last_index(names, r.to)))
        } else {
            p
        }
    }
}

pub open spec fn after(x: Seq<char>) -> spec_fn(Seq<char>) -> bool {
    |y: Seq<char>| seq_lt(x, y)
}

/// Sorting strings in ascending order, by insertion.
pub open spec fn sorted_strings(s: Seq<Seq<char>>) -> Seq<Seq<char>>
    decreases s.len(),
{
    if s.len() == 0 {
        Seq::empty()
    } else {
        let p = sorted_strings(s.drop_last());
        let i = first_index(p, after(s.last()));
        if i < 0 { p.push(s.last()) } else { p.insert(i, s.last()) }
    }
}

/// The observations of the members, in member order (each from the last entity of that
/// name).
pub open spec fn member_observations(ents: Seq<EntityModel>, names: Seq<Seq<char>>, members: Seq<Seq<char>>) -> Seq<Seq<char>>
    decreases members.len(),
{
    if members.len() == 0 {
        Seq::empty()
    } else {
        let i = last_index(names, members.last());
        member_observations(ents, names, members.drop_last()) + (if i >= 0 { ents[i].observations } else { Seq::empty() })
    }
}

pub open spec fn community_summary(members: Seq<Seq<char>>, obs: Seq<Seq<char>>) -> Seq<char> {
    if obs.len() == 0 {
        "Community of "@ + decimal(members.len()) + " entities ("@ + join(members, ", "@) + ") with no observations."@
    } else {
        "Community of "@ + decimal(members.len()) + " entities ("@ + join(members, ", "@) + "). Observations: "@ + join(obs, "; "@)
    }
}

/// The community of component `k`.
pub open spec fn community_of(ents: Seq<EntityModel>, comps: Seq<Seq<int>>, k: int) -> (int, Seq<Seq<char>>, Seq<char>) {
    let names = ents.map_values(|e: EntityModel| e.name);
    let members = sorted_strings(comps[k].map_values(|i: int| names[i]));
    (k, members, community_summary(members, member_observations(ents, names, members)))
}

/// The communities of the visible graph: one per component that `tarjan_scc` finds.
pub open spec fn communities_spec(ents: Seq<EntityModel>, rels: Seq<RelationModel>) -> Seq<(int, Seq<Seq<char>>, Seq<char>)> {
    let names = ents.map_values(|e: EntityModel| e.name);
    let comps = tarjan_components(names.len() as int, community_edges(names, rels));
    Seq::new(comps.len(), |k: int| community_of(ents, comps, k))
}


fn last_index_exec(names: &Vec<String>, x: &String) -> (r: Option<usize>)
    ensures
        match r {
            Some(i) => i < names.len() && last_index(string_views(names@), x@) == i,
            None => last_index(string_views(names@), x@) == -1,
        },
{
    let ghost nv = string_views(names@);
    let mut found: Option<usize> = None;
    let mut i: usize = 0;
    while i < names.len()
        invariant
            i <= names.len(),
            nv == string_views(names@),
            match found {
                Some(j) => j < i && last_index(nv.take(i as int), x@) == j,
                None => last_index(nv.take(i as int), x@) == -1,
            },
        decreases names.len() - i,
    {
        proof {
            assert(nv.take(i + 1).drop_last() =~= nv.take(i as int));
            assert(nv.take(i + 1).last() == names@[i as int]@);
        }
        if str_eq(names[i].as_str(), x.as_str()) {
            found = Some(i);
        }
        i += 1;
    }
    assert(nv.take(names.len() as int) =~= nv);
    found
}

fn sort_strings(v: &Vec<String>) -> (r: Vec<String>)
    ensures
        string_views(r@) == sorted_strings(string_views(v@)),
{
    let ghost sv = string_views(v@);
    let mut r: Vec<String> = Vec::new();
    let mut i: usize = 0;
    assert(string_views(r@) =~= sorted_strings(sv.take(0)));
    while i < v.len()
        invariant
            i <= v.len(),
            sv == string_views(v@),
            string_views(r@) == sorted_strings(sv.take(i as int)),
        decreases v.len() - i,
    {
        let x = &v[i];
        proof {
            assert(sv.take(i + 1).drop_last() =~= sv.take(i as int));
            assert(sv.take(i + 1).last() == x@);
        }
        let ghost p = string_views(r@);
        let mut j: usize = 0;
        let mut found = false;
        while !found && j < r.len()
            invariant
                j <= r.len(),
                p == string_views(r@),
                forall|t: int| 0 <= t < j ==> !after(x@)(#[trigger] p[t]),
                found ==> j < r.len() && after(x@)(p[j as int]),
            decreases r.len() - j + (if found { 0int } else { 1int }),
        {
            assert(p[j as int] == r@[j as int]@);
            if string_lt(x.as_str(), r[j].as_str()) {
                found = true;
            } else {
                j += 1;
            }
        }
        proof {
            lemma_first_index(p, after(x@), j as int);
        }
        if found {
            r.insert(j, x.clone());
            assert(string_views(r@) =~= p.insert(j as int, x@));
        } else {
            r.push(x.clone());
            assert(string_views(r@) =~= p.push(x@));
        }
        i += 1;
    }
    assert(sv.take(v.len() as int) =~= sv);
    r
}

pub open spec fn names_of(ents: Seq<EntityModel>) -> Seq<Seq<char>> {
    ents.map_values(|e: EntityModel| e.name)
}

fn entity_names(entities: &Vec<Entity>) -> (r: Vec<String>)
    ensures
        string_views(r@) == names_of(entity_views(entities@)),
        r.len() == entities.len(),
{
    let mut r: Vec<String> = Vec::new();
    let mut i: usize = 0;
    while i < entities.len()
        invariant
            i <= entities.len(),
            string_views(r@) == names_of(entity_views(entities@)).take(i as int),
            r.len() == i,
        decreases entities.len() - i,
    {
        let ghost before = string_views(r@);
        r.push(entities[i].name.clone());
        proof {
            let nv = names_of(entity_views(entities@));
            assert(nv[i as int] == entities@[i as int].name@);
            assert(string_views(r@) =~= before.push(entities@[i as int].name@));
            assert(nv.take(i + 1) =~= nv.take(i as int).push(nv[i as int]));
        }
        i += 1;
    }
    assert(names_of(entity_views(entities@)).take(entities.len() as int) =~= names_of(entity_views(entities@)));
    r
}

/// The summaries of the components `comps` (node indices into `entities`) found in the
/// graph of `entities`: for each, its members' names sorted, and their observations.
pub fn communities_from_components(entities: &Vec<Entity>, comps: &Vec<Vec<usize>>) -> (r: Vec<Community>)
    requires
        comps.len() < u32::MAX,
        forall|k: int, j: int| 0 <= k < comps.len() && 0 <= j < comps@[k].len() ==> #[trigger] comps@[k]@[j] < entities.len(),
    ensures
        r@.map_values(|c: Community| c.view()) == Seq::new(comps.len() as nat, |k: int| community_of(entity_views(entities@), index_rows(comps@), k)),
{
    let names = entity_names(entities);
    let ghost ev = entity_views(entities@);
    let ghost nv = string_views(names@);
    let ghost target = Seq::new(comps.len() as nat, |k: int| community_of(ev, index_rows(comps@), k));
    let mut out: Vec<Community> = Vec::new();
    let mut k: usize = 0;
    while k < comps.len()
        invariant
            k <= comps.len(),
            comps.len() < u32::MAX,
            ev == entity_views(entities@),
            nv == string_views(names@),
            nv == names_of(ev),
            names.len() == entities.len(),
            target == Seq::new(comps.len() as nat, |k: int| community_of(ev, index_rows(comps@), k)),
            forall|a: int, j: int| 0 <= a < comps.len() && 0 <= j < comps@[a].len() ==> #[trigger] comps@[a]@[j] < entities.len(),
            out@.map_values(|c: Community| c.view()) == target.take(k as int),
        decreases comps.len() - k,
    {
        let comp = &comps[k];
        let ghost cidx = index_rows(comps@)[k as int];
        let mut raw: Vec<String> = Vec::new();
        let mut j: usize = 0;
        while j < comp.len()
            invariant
                j <= comp.len(),
                comp == comps@[k as int],
                cidx == comp@.map_values(|i: usize| i as int),
                nv == string_views(names@),
                names.len() == entities.len(),
                forall|t: int| 0 <= t < comp.len() ==> #[trigger] comp@[t] < entities.len(),
                string_views(raw@) == cidx.take(j as int).map_values(|i: int| nv[i]),
            decreases comp.len() - j,
        {
            let ghost before = string_views(raw@);
            raw.push(names[comp[j]].clone());
            proof {
                assert(string_views(raw@) =~= before.push(nv[comp@[j as int] as int]));
                assert(cidx.take(j + 1) =~= cidx.take(j as int).push(comp@[j as int] as int));
            }
            j += 1;
        }
        assert(cidx.take(comp.len() as int) =~= cidx);
        let members = sort_strings(&raw);
        let ghost mv = string_views(members@);
        let mut obs: Vec<String> = Vec::new();
        let mut m: usize = 0;
        assert(member_observations(ev, nv, mv.take(0)) =~= Seq::<Seq<char>>::empty());
        while m < members.len()
            invariant
                m <= members.len(),
                mv == string_views(members@),
                ev == entity_views(entities@),
                nv == string_views(names@),
                names.len() == entities.len(),
                string_views(obs@) == member_observations(ev, nv, mv.take(m as int)),
            decreases members.len() - m,
        {
            proof {
                assert(mv.take(m + 1).drop_last() =~= mv.take(m as int));
                assert(mv.take(m + 1).last() == members@[m as int]@);
            }
            let ghost o0 = string_views(obs@);
            match last_index_exec(&names, &members[m]) {
                Some(i) => {
                    let mut more = crate::graph::clone_strings(&entities[i].observations);
                    let ghost mo = string_views(more@);
                    obs.append(&mut more);
                    assert(ev[i as int] == entities@[i as int].view());
                    assert(string_views(obs@) =~= o0 + mo);
                },
                None => {
                    assert(string_views(obs@) =~= o0 + Seq::<Seq<char>>::empty());
                },
            }
            m += 1;
        }
        assert(mv.take(members.len() as int) =~= mv);
        let mut summary = owned("Community of ");
        let count = decimal_string(members.len() as u64);
        summary.append(count.as_str());
        summary.append(" entities (");
        let joined = join_strings(&members, ", ");
        summary.append(joined.as_str());
        if obs.len() == 0 {
            summary.append(") with no observations.");
        } else {
            summary.append("). Observations: ");
            let jo = join_strings(&obs, "; ");
            summary.append(jo.as_str());
        }
        let ghost o0 = out@;
        out.push(Community { id: k as u32, members, summary });
        proof {
            assert(index_rows(comps@)[k as int].map_values(|i: int| names_of(ev)[i]) =~= cidx.map_values(|i: int| nv[i]));
            assert(out@.map_values(|c: Community| c.view()) =~= o0.map_values(|c: Community| c.view()).push(target[k as int]));
            assert(target.take(k + 1) =~= target.take(k as int).push(target[k as int]));
        }
        k += 1;
    }
    assert(target.take(comps.len() as int) =~= target);
    out
}

/// The communities of the graph visible to `scope`: the connected components of its
/// entities (one node per entity) joined by its active relations, as `tarjan_scc` finds
/// them, each with its members sorted and a summary of their observations.
pub fn detect_communities(graph: &GraphMemory, scope: &MemoryScope) -> (r: Vec<Community>)
    requires
        graph.nodes().len() < u32::MAX,
        graph.edges().len() < u32::MAX,
    ensures
        r@.map_values(|c: Community| c.view()) == communities_spec(visible_entities(graph.nodes(), *scope), visible_relations(graph.edges(), *scope)),
{
    let kg = graph.read_graph(scope);
    proof {
        crate::graph::lemma_visible_sizes(graph.nodes(), graph.edges(), *scope);
    }
    let names = entity_names(&kg.entities);
    let ghost ev = entity_views(kg.entities@);
    let ghost nv = string_views(names@);
    let mut g = ungraph_new();
    let mut i: usize = 0;
    while i < names.len()
        invariant
            i <= names.len(),
            names.len() < u32::MAX,
            ungraph_nodes(g) == nv.take(i as int),
            ungraph_edges(g) == Seq::<(int, int)>::empty(),
            nv == string_views(names@),
        decreases names.len() - i,
    {
        ungraph_add_node(&mut g, names[i].clone());
        assert(nv.take(i + 1) =~= nv.take(i as int).push(names@[i as int]@));
        i += 1;
    }
    assert(nv.take(names.len() as int) =~= nv);
    let rels = &kg.relations;
    let ghost rv = relation_views(rels@);
    let mut k: usize = 0;
    assert(community_edges(nv, rv.take(0)) =~= Seq::<(int, int)>::empty());
    while k < rels.len()
        invariant
            k <= rels.len(),
            rels.len() < u32::MAX,
            rv == relation_views(rels@),
            nv == string_views(names@),
            ungraph_nodes(g) == nv,
            ungraph_edges(g) == community_edges(nv, rv.take(k as int)),
            ungraph_edges(g).len() <= k,
        decreases rels.len() - k,
    {
        let r = &rels[k];
        proof {
            assert(rv.take(k + 1).drop_last() =~= rv.take(k as int));
            assert(rv.take(k + 1).last() == r.view());
        }
        let a = last_index_exec(&names, &r.from);
        let b = last_index_exec(&names, &r.to);
        match (a, b) {
            (Some(x), Some(y)) => {
                ungraph_add_edge(&mut g, x, y);
            },
            _ => {},
        }
        k += 1;
    }
    assert(rv.take(rels.len() as int) =~= rv);
    let comps = ungraph_components(&g);
    proof {
        assert(names_of(ev) == nv);
    }
    communities_from_components(&kg.entities, &comps)
}

} // verus!
