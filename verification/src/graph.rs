//! The knowledge graph: entities with observations, and bitemporal relations.
//!
//! Entities are rows keyed by name and owner.  Relations are never erased: deleting
//! one closes its validity interval (`valid_until`), so the graph can be read as of
//! any past instant.  Timestamps are strings compared character by character.
use vstd::prelude::*;
use crate::scope::{MemoryScope, RowScope, row_scope_of, visible, reachable, is_visible, is_exact, is_reachable};
use crate::text::{str_eq, owned};
use crate::recall::{string_views, contains_string};

verus! {

/// A named thing in the graph.
#[derive(Debug, Clone)]
pub struct Entity {
    pub name: String,
    pub entity_type: String,
    pub observations: Vec<String>,
}

/// A typed, directed link between two entity names.
#[derive(Debug, Clone)]
pub struct Relation {
    pub from: String,
    pub to: String,
    pub relation_type: String,
}

/// A selection of the graph: entities and relations.
#[derive(Debug, Clone)]
pub struct KnowledgeGraph {
    pub entities: Vec<Entity>,
    pub relations: Vec<Relation>,
}

/// One stored version of a relation.  `confidence_ppm` is the confidence in
/// millionths (stored relations carry full confidence).
#[derive(Debug, Clone)]
pub struct RelationHistoryItem {
    pub from: String,
    pub to: String,
    pub relation_type: String,
    pub valid_from: String,
    pub valid_until: Option<String>,
    pub superseded_by: Option<String>,
    pub confidence_ppm: u32,
}

/// Observations to add to a named entity.
#[derive(Debug, Clone)]
pub struct AddObservationsInput {
    pub entity_name: String,
    pub contents: Vec<String>,
}

/// The observations that were new for an entity.
#[derive(Debug, Clone)]
pub struct AddObservationsOutput {
    pub entity_name: String,
    pub added_observations: Vec<String>,
}

/// Observations to remove from a named entity.
#[derive(Debug, Clone)]
pub struct DeleteObservationsInput {
    pub entity_name: String,
    pub observations: Vec<String>,
}

/// Why a graph write was refused.
#[derive(Debug)]
pub enum GraphError {
    /// No entity of that name in the scope; the message names it.
    EntityNotFound(String),
    /// A relation version with the same key and start instant is already stored.
    DuplicateVersion(Relation),
}

/// A stored entity row.
#[derive(Debug, Clone)]
pub struct NodeRow {
    pub name: String,
    pub entity_type: String,
    pub observations: Vec<String>,
    pub owner: RowScope,
}

/// A stored relation version.
#[derive(Debug, Clone)]
pub struct EdgeRow {
    pub from: String,
    pub to: String,
    pub relation_type: String,
    pub owner: RowScope,
    pub valid_from: String,
    pub valid_until: Option<String>,
    pub superseded_by: Option<String>,
    pub confidence_ppm: u32,
}

pub type Owner = (Seq<char>, Seq<char>, Seq<char>);

pub struct EntityModel {
    pub name: Seq<char>,
    pub entity_type: Seq<char>,
    pub observations: Seq<Seq<char>>,
}

pub struct RelationModel {
    pub from: Seq<char>,
    pub to: Seq<char>,
    pub relation_type: Seq<char>,
}

pub struct NodeModel {
    pub name: Seq<char>,
    pub entity_type: Seq<char>,
    pub observations: Seq<Seq<char>>,
    pub owner: Owner,
}

pub struct EdgeModel {
    pub from: Seq<char>,
    pub to: Seq<char>,
    pub relation_type: Seq<char>,
    pub owner: Owner,
    pub valid_from: Seq<char>,
    pub valid_until: Option<Seq<char>>,
    pub superseded_by: Option<Seq<char>>,
    pub confidence_ppm: u32,
}

pub open spec fn opt_view(o: Option<String>) -> Option<Seq<char>> {
    crate::scope::opt_view(o)
}

impl Entity {
    pub open spec fn view(&self) -> EntityModel {
        EntityModel { name: self.name@, entity_type: self.entity_type@, observations: string_views(self.observations@) }
    }
}

impl Relation {
    pub open spec fn view(&self) -> RelationModel {
        RelationModel { from: self.from@, to: self.to@, relation_type: self.relation_type@ }
    }

    /// A field-by-field copy.
    pub fn duplicate(&self) -> (r: Self)
        ensures
            r.view() == self.view(),
    {
        Relation { from: self.from.clone(), to: self.to.clone(), relation_type: self.relation_type.clone() }
    }
}

impl NodeRow {
    pub open spec fn view(&self) -> NodeModel {
        NodeModel {
            name: self.name@,
            entity_type: self.entity_type@,
            observations: string_views(self.observations@),
            owner: self.owner.view(),
        }
    }
}

impl EdgeRow {
    pub open spec fn view(&self) -> EdgeModel {
        EdgeModel {
            from: self.from@,
            to: self.to@,
            relation_type: self.relation_type@,
            owner: self.owner.view(),
            valid_from: self.valid_from@,
            valid_until: opt_view(self.valid_until),
            superseded_by: opt_view(self.superseded_by),
            confidence_ppm: self.confidence_ppm,
        }
    }
}

pub open spec fn node_views(s: Seq<NodeRow>) -> Seq<NodeModel> {
    s.map_values(|n: NodeRow| n.view())
}

pub open spec fn edge_views(s: Seq<EdgeRow>) -> Seq<EdgeModel> {
    s.map_values(|e: EdgeRow| e.view())
}

pub open spec fn entity_views(s: Seq<Entity>) -> Seq<EntityModel> {
    s.map_values(|e: Entity| e.view())
}

pub open spec fn relation_views(s: Seq<Relation>) -> Seq<RelationModel> {
    s.map_values(|r: Relation| r.view())
}

/// Full confidence, in millionths.
pub open spec fn full_confidence() -> u32 {
    1_000_000
}

/// A relation version is active while its interval is open.
pub open spec fn active(e: EdgeModel) -> bool {
    e.valid_until is None
}

/// An entity row with this name stored exactly under `owner`.
pub open spec fn has_node(nodes: Seq<NodeModel>, name: Seq<char>, owner: Owner) -> bool {
    exists|i: int| 0 <= i < nodes.len() && #[trigger] nodes[i].name == name && nodes[i].owner == owner
}

/// The entity row created for an entity written under `owner`.
pub open spec fn node_of(e: EntityModel, owner: Owner) -> NodeModel {
    NodeModel { name: e.name, entity_type: e.entity_type, observations: e.observations, owner }
}

/// Creating entities in order: an entity whose name is already stored under the owner is
/// skipped, the others are appended.  Returns the rows and the entities created.
pub open spec fn add_entities(nodes: Seq<NodeModel>, ents: Seq<EntityModel>, owner: Owner) -> (Seq<NodeModel>, Seq<EntityModel>)
    decreases ents.len(),
{
    if ents.len() == 0 {
        (nodes, Seq::empty())
    } else {
        let (n, c) = add_entities(nodes, ents.drop_last(), owner);
        let e = ents.last();
        if has_node(n, e.name, owner) {
            (n, c)
        } else {
            (n.push(node_of(e, owner)), c.push(e))
        }
    }
}

/// The key of a relation version written under `owner`: endpoints, type and owner.
pub open spec fn same_relation(e: EdgeModel, r: RelationModel, owner: Owner) -> bool {
    e.from == r.from && e.to == r.to && e.relation_type == r.relation_type && e.owner == owner
}

/// Some active version of the relation is stored under the owner.
pub open spec fn has_active(edges: Seq<EdgeModel>, r: RelationModel, owner: Owner) -> bool {
    exists|i: int| 0 <= i < edges.len() && #[trigger] same_relation(edges[i], r, owner) && active(edges[i])
}

/// Some version of the relation starting at `now` is stored under the owner.
pub open spec fn has_version(edges: Seq<EdgeModel>, r: RelationModel, owner: Owner, now: Seq<char>) -> bool {
    exists|i: int| 0 <= i < edges.len() && #[trigger] same_relation(edges[i], r, owner) && edges[i].valid_from == now
}

/// The version stored for a new relation starting at `now`.
pub open spec fn edge_of(r: RelationModel, owner: Owner, now: Seq<char>) -> EdgeModel {
    EdgeModel {
        from: r.from,
        to: r.to,
        relation_type: r.relation_type,
        owner,
        valid_from: now,
        valid_until: None,
        superseded_by: None,
        confidence_ppm: full_confidence(),
    }
}

/// Creating relations in order at instant `now`: a relation already active under the owner
/// is skipped; one whose version starting at `now` exists stops the run (`None` in the
/// third place) with the earlier ones kept; the others are appended.
pub open spec fn add_relations(edges: Seq<EdgeModel>, rels: Seq<RelationModel>, owner: Owner, now: Seq<char>) -> (Seq<EdgeModel>, Seq<RelationModel>, bool)
    decreases rels.len(),
{
    if rels.len() == 0 {
        (edges, Seq::empty(), true)
    } else {
        let (e, c, ok) = add_relations(edges, rels.drop_last(), owner, now);
        let r = rels.last();
        if !ok {
            (e, c, ok)
        } else if has_active(e, r, owner) {
            (e, c, true)
        } else if has_version(e, r, owner, now) {
            (e, c, false)
        } else {
            (e.push(edge_of(r, owner, now)), c.push(r), true)
        }
    }
}

proof fn lemma_add_relations_stuck(edges: Seq<EdgeModel>, rels: Seq<RelationModel>, k: int, owner: Owner, now: Seq<char>)
    requires
        0 <= k <= rels.len(),
        !add_relations(edges, rels.take(k), owner, now).2,
    ensures
        add_relations(edges, rels, owner, now).0 == add_relations(edges, rels.take(k), owner, now).0,
        !add_relations(edges, rels, owner, now).2,
    decreases rels.len() - k,
{
    if k < rels.len() {
        assert(rels.drop_last().take(k) =~= rels.take(k));
        lemma_add_relations_stuck(edges, rels.drop_last(), k, owner, now);
    } else {
        assert(rels.take(k) =~= rels);
    }
}

/// The version closed at `now`.
pub open spec fn closed_at(e: EdgeModel, now: Seq<char>) -> EdgeModel {
    EdgeModel { valid_until: Some(now), ..e }
}

/// Closes, at `now`, every active version that `hit` selects.
pub open spec fn close_where(edges: Seq<EdgeModel>, hit: spec_fn(EdgeModel) -> bool, now: Seq<char>) -> Seq<EdgeModel> {
    edges.map_values(|e: EdgeModel| if active(e) && hit(e) { closed_at(e, now) } else { e })
}

/// Selects versions of relation `r` under `owner`.
pub open spec fn relation_hit(r: RelationModel, owner: Owner) -> spec_fn(EdgeModel) -> bool {
    |e: EdgeModel| same_relation(e, r, owner)
}

/// Deleting relations in order at `now`: each closes its active versions under the owner.
pub open spec fn remove_relations(edges: Seq<EdgeModel>, rels: Seq<RelationModel>, owner: Owner, now: Seq<char>) -> Seq<EdgeModel>
    decreases rels.len(),
{
    if rels.len() == 0 {
        edges
    } else {
        close_where(remove_relations(edges, rels.drop_last(), owner, now), relation_hit(rels.last(), owner), now)
    }
}

/// The entity of a stored row.
pub open spec fn entity_of(n: NodeModel) -> EntityModel {
    EntityModel { name: n.name, entity_type: n.entity_type, observations: n.observations }
}

/// The relation of a stored version.
pub open spec fn relation_of(e: EdgeModel) -> RelationModel {
    RelationModel { from: e.from, to: e.to, relation_type: e.relation_type }
}

/// Rows stored under an owner visible to `scope`.
pub open spec fn node_visible(scope: MemoryScope) -> spec_fn(NodeModel) -> bool {
    |n: NodeModel| visible(scope, n.owner)
}

/// Active versions stored under an owner visible to `scope`.
pub open spec fn edge_live(scope: MemoryScope) -> spec_fn(EdgeModel) -> bool {
    |e: EdgeModel| visible(scope, e.owner) && active(e)
}

/// Versions stored under an owner visible to `scope` and valid at `t`.
pub open spec fn edge_valid(scope: MemoryScope, t: Seq<char>) -> spec_fn(EdgeModel) -> bool {
    |e: EdgeModel| visible(scope, e.owner) && valid_at(e, t)
}

pub open spec fn to_entity() -> spec_fn(NodeModel) -> EntityModel {
    |n: NodeModel| entity_of(n)
}

pub open spec fn to_relation() -> spec_fn(EdgeModel) -> RelationModel {
    |e: EdgeModel| relation_of(e)
}

/// The entities visible to `scope`, in storage order.
pub open spec fn visible_entities(nodes: Seq<NodeModel>, scope: MemoryScope) -> Seq<EntityModel> {
    nodes.filter(node_visible(scope)).map_values(to_entity())
}

/// The active relations visible to `scope`, in storage order.
pub open spec fn visible_relations(edges: Seq<EdgeModel>, scope: MemoryScope) -> Seq<RelationModel> {
    edges.filter(edge_live(scope)).map_values(to_relation())
}

/// A version is valid at instant `t` when it started at or before `t` and had not ended by `t`.
pub open spec fn valid_at(e: EdgeModel, t: Seq<char>) -> bool {
    &&& seq_le(e.valid_from, t)
    &&& match e.valid_until {
        None => true,
        Some(u) => seq_lt(t, u),
    }
}

/// The relations visible to `scope` and valid at instant `t`, in storage order.
pub open spec fn relations_as_of(edges: Seq<EdgeModel>, scope: MemoryScope, t: Seq<char>) -> Seq<RelationModel> {
    edges.filter(edge_valid(scope, t)).map_values(to_relation())
}

/// Filtering then mapping a sequence extended by one element.
pub proof fn lemma_filter_map_push<A, B>(s: Seq<A>, x: A, p: spec_fn(A) -> bool, f: spec_fn(A) -> B)
    ensures
        s.push(x).filter(p).map_values(f) == (if p(x) {
            s.filter(p).map_values(f).push(f(x))
        } else {
            s.filter(p).map_values(f)
        }),
{
    reveal_with_fuel(Seq::<_>::filter, 1);
    assert(s.push(x).drop_last() =~= s);
    if p(x) {
        assert(s.filter(p).push(x).map_values(f) =~= s.filter(p).map_values(f).push(f(x)));
    }
}

/// Lexicographic order on character sequences (code point by code point).
pub open spec fn seq_lt(a: Seq<char>, b: Seq<char>) -> bool
    decreases a.len(),
{
    if b.len() == 0 {
        false
    } else if a.len() == 0 {
        true
    } else if a[0] != b[0] {
        (a[0] as int) < (b[0] as int)
    } else {
        seq_lt(a.drop_first(), b.drop_first())
    }
}

pub open spec fn seq_le(a: Seq<char>, b: Seq<char>) -> bool {
    a == b || seq_lt(a, b)
}

/// `a < b` in the lexicographic order of character sequences.
pub fn str_lt(a: &Vec<char>, b: &Vec<char>) -> (r: bool)
    ensures
        r == seq_lt(a@, b@),
{
    let mut i: usize = 0;
    assert(a@.skip(0) =~= a@);
    assert(b@.skip(0) =~= b@);
    while i < a.len() && i < b.len() && a[i] == b[i]
        invariant
            i <= a.len(),
            i <= b.len(),
            forall|k: int| 0 <= k < i ==> a@[k] == b@[k],
            seq_lt(a@, b@) == seq_lt(a@.skip(i as int), b@.skip(i as int)),
        decreases a.len() - i,
    {
        proof {
            assert(a@.skip(i as int).drop_first() =~= a@.skip(i + 1));
            assert(b@.skip(i as int).drop_first() =~= b@.skip(i + 1));
        }
        i += 1;
    }
    if i == b.len() {
        false
    } else if i == a.len() {
        true
    } else {
        a[i] < b[i]
    }
}

/// Whether `a < b` as strings.
pub fn string_lt(a: &str, b: &str) -> (r: bool)
    ensures
        r == seq_lt(a@, b@),
{
    let x = crate::text::chars_of(a);
    let y = crate::text::chars_of(b);
    str_lt(&x, &y)
}

/// Whether `a <= b` as strings.
pub fn string_le(a: &str, b: &str) -> (r: bool)
    ensures
        r == seq_le(a@, b@),
{
    str_eq(a, b) || string_lt(a, b)
}

/// A copy of a vector of strings.
pub fn clone_strings(v: &Vec<String>) -> (r: Vec<String>)
    ensures
        r@ == v@,
{
    let mut r: Vec<String> = Vec::new();
    let mut i: usize = 0;
    while i < v.len()
        invariant
            i <= v.len(),
            r@ == v@.take(i as int),
        decreases v.len() - i,
    {
        r.push(v[i].clone());
        i += 1;
        assert(r@ =~= v@.take(i as int));
    }
    assert(v@.take(v.len() as int) =~= v@);
    r
}

impl Entity {
    /// A field-by-field copy.
    pub fn duplicate(&self) -> (r: Self)
        ensures
            r.view() == self.view(),
    {
        Entity { name: self.name.clone(), entity_type: self.entity_type.clone(), observations: clone_strings(&self.observations) }
    }
}

/// Reads the UTC clock as `YYYY-MM-DDTHH:MM:SSZ`, the form in which relation
/// intervals are stored.
#[verifier::external_body]
pub(crate) fn utc_timestamp() -> String {
    chrono::Utc::now().format("%Y-%m-%dT%H:%M:%SZ").to_string()
}

/// The knowledge graph store: entity rows and relation versions, in storage order.
pub struct GraphMemory {
    nodes: Vec<NodeRow>,
    edges: Vec<EdgeRow>,
}

impl GraphMemory {
    /// The entity rows.
    pub closed spec fn nodes(&self) -> Seq<NodeModel> {
        node_views(self.nodes@)
    }

    /// The relation versions.
    pub closed spec fn edges(&self) -> Seq<EdgeModel> {
        edge_views(self.edges@)
    }

    /// An empty graph.
    pub fn new() -> (r: Self)
        ensures
            r.nodes() == Seq::<NodeModel>::empty(),
            r.edges() == Seq::<EdgeModel>::empty(),
    {
        let r = GraphMemory { nodes: Vec::new(), edges: Vec::new() };
        assert(r.nodes() =~= Seq::<NodeModel>::empty());
        assert(r.edges() =~= Seq::<EdgeModel>::empty());
        r
    }

    /// A graph holding the given rows, in the given order.
    pub fn from_rows(nodes: Vec<NodeRow>, edges: Vec<EdgeRow>) -> (r: Self)
        ensures
            r.nodes() == node_views(nodes@),
            r.edges() == edge_views(edges@),
    {
        GraphMemory { nodes, edges }
    }

    /// The stored entity rows, in storage order.
    pub fn node_rows(&self) -> (r: &Vec<NodeRow>)
        ensures
            node_views(r@) == self.nodes(),
    {
        &self.nodes
    }

    /// The stored relation versions, in storage order.
    pub fn edge_rows(&self) -> (r: &Vec<EdgeRow>)
        ensures
            edge_views(r@) == self.edges(),
    {
        &self.edges
    }

    fn find_node(&self, name: &str, owner: &RowScope) -> (r: Option<usize>)
        ensures
            match r {
                Some(i) => i < self.nodes.len() && self.nodes@[i as int]@.name == name@
                    && self.nodes@[i as int]@.owner == owner.view()
                    && forall|j: int| 0 <= j < i ==> !(#[trigger] self.nodes@[j]@.name == name@ && self.nodes@[j]@.owner == owner.view()),
                None => !has_node(self.nodes(), name@, owner.view()),
            },
    {
        let mut i: usize = 0;
        while i < self.nodes.len()
            invariant
                i <= self.nodes.len(),
                forall|j: int| 0 <= j < i ==> !(#[trigger] self.nodes@[j]@.name == name@ && self.nodes@[j]@.owner == owner.view()),
            decreases self.nodes.len() - i,
        {
            if str_eq(self.nodes[i].name.as_str(), name) && row_eq(&self.nodes[i].owner, owner) {
                return Some(i);
            }
            i += 1;
        }
        assert forall|j: int| 0 <= j < self.nodes().len() implies !(#[trigger] self.nodes()[j].name == name@ && self.nodes()[j].owner == owner.view()) by {
            assert(self.nodes()[j] == self.nodes@[j]@);
        }
        None
    }

    /// Creates the given entities under `scope`, skipping any whose name is already stored
    /// there (including earlier entities of the same call); returns those created.
    pub fn create_entities(&mut self, entities: Vec<Entity>, scope: &MemoryScope) -> (r: Vec<Entity>)
        ensures
            (final(self).nodes(), entity_views(r@)) == add_entities(old(self).nodes(), entity_views(entities@), row_scope_of(*scope)),
            final(self).edges() == old(self).edges(),
    {
        let owner = RowScope::from_scope(scope);
        let ghost o = owner.view();
        let ghost ev = entity_views(entities@);
        let mut created: Vec<Entity> = Vec::new();
        let mut i: usize = 0;
        while i < entities.len()
            invariant
                i <= entities.len(),
                o == owner.view(),
                o == row_scope_of(*scope),
                ev == entity_views(entities@),
                (self.nodes(), entity_views(created@)) == add_entities(old(self).nodes(), ev.take(i as int), o),
                self.edges() == old(self).edges(),
            decreases entities.len() - i,
        {
            proof {
                assert(ev.take(i + 1).drop_last() =~= ev.take(i as int));
                assert(ev.take(i + 1).last() == entities@[i as int].view());
            }
            let e = entities[i].duplicate();
            let found = self.find_node(e.name.as_str(), &owner);
            if found.is_none() {
                let row = NodeRow {
                    name: e.name.clone(),
                    entity_type: e.entity_type.clone(),
                    observations: clone_strings(&e.observations),
                    owner: owner.duplicate(),
                };
                self.nodes.push(row);
                created.push(e);
                proof {
                    assert(self.nodes() =~= add_entities(old(self).nodes(), ev.take(i + 1), o).0);
                    assert(entity_views(created@) =~= add_entities(old(self).nodes(), ev.take(i + 1), o).1);
                }
            } else {
                proof {
                    let j = found.unwrap() as int;
                    assert(self.nodes()[j] == self.nodes@[j]@);
                    assert(has_node(self.nodes(), e.name@, o));
                }
            }
            i += 1;
        }
        proof {
            assert(ev.take(entities.len() as int) =~= ev);
        }
        created
    }
}

/// Whether two stored owners are equal.
pub fn row_eq(a: &RowScope, b: &RowScope) -> (r: bool)
    ensures
        r == (a.view() == b.view()),
{
    str_eq(a.user_id.as_str(), b.user_id.as_str()) && str_eq(a.session_id.as_str(), b.session_id.as_str())
        && str_eq(a.agent_id.as_str(), b.agent_id.as_str())
}

/// Selects versions touching entity `name` (as either endpoint) under `owner`.
pub open spec fn touching_hit(name: Seq<char>, owner: Owner) -> spec_fn(EdgeModel) -> bool {
    |e: EdgeModel| (e.from == name || e.to == name) && e.owner == owner
}

/// Rows other than those of entity `name` under `owner`.
pub open spec fn node_kept(name: Seq<char>, owner: Owner) -> spec_fn(NodeModel) -> bool {
    |x: NodeModel| !(x.name == name && x.owner == owner)
}

/// Deleting entities in order at `now`: each loses its rows under the owner, and the active
/// versions touching it under the owner are closed.
pub open spec fn remove_entities(nodes: Seq<NodeModel>, edges: Seq<EdgeModel>, names: Seq<Seq<char>>, owner: Owner, now: Seq<char>) -> (Seq<NodeModel>, Seq<EdgeModel>)
    decreases names.len(),
{
    if names.len() == 0 {
        (nodes, edges)
    } else {
        let (n, e) = remove_entities(nodes, edges, names.drop_last(), owner, now);
        let name = names.last();
        (n.filter(node_kept(name, owner)), close_where(e, touching_hit(name, owner), now))
    }
}

impl EdgeRow {
    pub fn duplicate(&self) -> (r: Self)
        ensures
            r == *self,
    {
        EdgeRow {
            from: self.from.clone(),
            to: self.to.clone(),
            relation_type: self.relation_type.clone(),
            owner: RowScope { user_id: self.owner.user_id.clone(), session_id: self.owner.session_id.clone(), agent_id: self.owner.agent_id.clone() },
            valid_from: self.valid_from.clone(),
            valid_until: crate::scope::clone_opt(&self.valid_until),
            superseded_by: crate::scope::clone_opt(&self.superseded_by),
            confidence_ppm: self.confidence_ppm,
        }
    }

    fn closed(&self, now: &String) -> (r: Self)
        ensures
            r.view() == closed_at(self.view(), now@),
    {
        EdgeRow {
            from: self.from.clone(),
            to: self.to.clone(),
            relation_type: self.relation_type.clone(),
            owner: self.owner.duplicate(),
            valid_from: self.valid_from.clone(),
            valid_until: Some(now.clone()),
            superseded_by: crate::scope::clone_opt(&self.superseded_by),
            confidence_ppm: self.confidence_ppm,
        }
    }
}

impl NodeRow {
    fn duplicate(&self) -> (r: Self)
        ensures
            r.view() == self.view(),
    {
        NodeRow {
            name: self.name.clone(),
            entity_type: self.entity_type.clone(),
            observations: clone_strings(&self.observations),
            owner: RowScope { user_id: self.owner.user_id.clone(), session_id: self.owner.session_id.clone(), agent_id: self.owner.agent_id.clone() },
        }
    }
}

impl GraphMemory {
    fn has_active_exec(&self, r: &Relation, owner: &RowScope) -> (b: bool)
        ensures
            b == has_active(self.edges(), r.view(), owner.view()),
    {
        let mut i: usize = 0;
        while i < self.edges.len()
            invariant
                i <= self.edges.len(),
                forall|j: int| 0 <= j < i ==> !(#[trigger] same_relation(self.edges@[j]@, r.view(), owner.view()) && active(self.edges@[j]@)),
            decreases self.edges.len() - i,
        {
            let e = &self.edges[i];
            if str_eq(e.from.as_str(), r.from.as_str()) && str_eq(e.to.as_str(), r.to.as_str())
                && str_eq(e.relation_type.as_str(), r.relation_type.as_str()) && row_eq(&e.owner, owner)
                && e.valid_until.is_none() {
                assert(self.edges()[i as int] == self.edges@[i as int]@);
                assert(same_relation(self.edges()[i as int], r.view(), owner.view()) && active(self.edges()[i as int]));
                return true;
            }
            i += 1;
        }
        assert forall|j: int| 0 <= j < self.edges().len() implies !(#[trigger] same_relation(self.edges()[j], r.view(), owner.view()) && active(self.edges()[j])) by {
            assert(self.edges()[j] == self.edges@[j]@);
        }
        false
    }

    fn has_version_exec(&self, r: &Relation, owner: &RowScope, now: &String) -> (b: bool)
        ensures
            b == has_version(self.edges(), r.view(), owner.view(), now@),
    {
        let mut i: usize = 0;
        while i < self.edges.len()
            invariant
                i <= self.edges.len(),
                forall|j: int| 0 <= j < i ==> !(#[trigger] same_relation(self.edges@[j]@, r.view(), owner.view()) && self.edges@[j]@.valid_from == now@),
            decreases self.edges.len() - i,
        {
            let e = &self.edges[i];
            if str_eq(e.from.as_str(), r.from.as_str()) && str_eq(e.to.as_str(), r.to.as_str())
                && str_eq(e.relation_type.as_str(), r.relation_type.as_str()) && row_eq(&e.owner, owner)
                && str_eq(e.valid_from.as_str(), now.as_str()) {
                assert(self.edges()[i as int] == self.edges@[i as int]@);
                assert(same_relation(self.edges()[i as int], r.view(), owner.view()) && self.edges()[i as int].valid_from == now@);
                return true;
            }
            i += 1;
        }
        assert forall|j: int| 0 <= j < self.edges().len() implies !(#[trigger] same_relation(self.edges()[j], r.view(), owner.view()) && self.edges()[j].valid_from == now@) by {
            assert(self.edges()[j] == self.edges@[j]@);
        }
        false
    }

    /// Creates the given relations under `scope` as starting at instant `now`, in order.
    /// A relation already active there is skipped.  A relation whose version starting at
    /// `now` is already stored (closed in the same instant) cannot be stored again: the
    /// call stops with an error and keeps what it created before.
    pub fn create_relations_at(&mut self, relations: Vec<Relation>, scope: &MemoryScope, now: &str) -> (r: Result<Vec<Relation>, GraphError>)
        ensures
            ({
                let (edges, created, ok) = add_relations(old(self).edges(), relation_views(relations@), row_scope_of(*scope), now@);
                &&& final(self).edges() == edges
                &&& match r {
                    Ok(c) => ok && relation_views(c@) == created,
                    Err(e) => !ok && e is DuplicateVersion,
                }
            }),
            final(self).nodes() == old(self).nodes(),
    {
        let owner = RowScope::from_scope(scope);
        let now_s = owned(now);
        let ghost o = owner.view();
        let ghost rv = relation_views(relations@);
        let mut created: Vec<Relation> = Vec::new();
        let mut i: usize = 0;
        while i < relations.len()
            invariant
                i <= relations.len(),
                o == owner.view(),
                o == row_scope_of(*scope),
                now_s@ == now@,
                rv == relation_views(relations@),
                (self.edges(), relation_views(created@), true) == add_relations(old(self).edges(), rv.take(i as int), o, now@),
                self.nodes() == old(self).nodes(),
            decreases relations.len() - i,
        {
            proof {
                assert(rv.take(i + 1).drop_last() =~= rv.take(i as int));
                assert(rv.take(i + 1).last() == relations@[i as int].view());
            }
            let rel = relations[i].duplicate();
            if self.has_active_exec(&rel, &owner) {
            } else if self.has_version_exec(&rel, &owner, &now_s) {
                proof {
                    lemma_add_relations_stuck(old(self).edges(), rv, (i + 1) as int, o, now@);
                }
                return Err(GraphError::DuplicateVersion(rel));
            } else {
                let row = EdgeRow {
                    from: rel.from.clone(),
                    to: rel.to.clone(),
                    relation_type: rel.relation_type.clone(),
                    owner: owner.duplicate(),
                    valid_from: now_s.clone(),
                    valid_until: None,
                    superseded_by: None,
                    confidence_ppm: 1_000_000,
                };
                self.edges.push(row);
                created.push(rel);
                proof {
                    assert(self.edges() =~= add_relations(old(self).edges(), rv.take(i + 1), o, now@).0);
                    assert(relation_views(created@) =~= add_relations(old(self).edges(), rv.take(i + 1), o, now@).1);
                }
            }
            i += 1;
        }
        proof {
            assert(rv.take(relations.len() as int) =~= rv);
        }
        Ok(created)
    }

    /// Creates the given relations under `scope`, starting now (see `create_relations_at`).
    /// Whatever the clock reads, entities are untouched, every relation passed is active
    /// under the scope's owner afterwards unless the call failed, and nothing is removed.
    pub fn create_relations(&mut self, relations: Vec<Relation>, scope: &MemoryScope) -> (r: Result<Vec<Relation>, GraphError>)
        ensures
            final(self).nodes() == old(self).nodes(),
            exists|now: Seq<char>| #[trigger] add_relations(old(self).edges(), relation_views(relations@), row_scope_of(*scope), now).0 == final(self).edges()
                && match r {
                    Ok(c) => add_relations(old(self).edges(), relation_views(relations@), row_scope_of(*scope), now).2
                        && relation_views(c@) == add_relations(old(self).edges(), relation_views(relations@), row_scope_of(*scope), now).1,
                    Err(e) => !add_relations(old(self).edges(), relation_views(relations@), row_scope_of(*scope), now).2,
                },
    {
        let now = utc_timestamp();
        self.create_relations_at(relations, scope, now.as_str())
    }

    /// Closes, at `now`, every active version that `r` names under `owner`; returns whether
    /// any was active.
    fn close_relation(&mut self, from: &String, to: &String, rel: &String, owner: &RowScope, now: &String) -> (b: bool)
        ensures
            final(self).edges() == close_where(old(self).edges(), relation_hit(RelationModel { from: from@, to: to@, relation_type: rel@ }, owner.view()), now@),
            final(self).nodes() == old(self).nodes(),
            b == has_active(old(self).edges(), RelationModel { from: from@, to: to@, relation_type: rel@ }, owner.view()),
    {
        let ghost r = RelationModel { from: from@, to: to@, relation_type: rel@ };
        let ghost old_edges = self.edges();
        let mut out: Vec<EdgeRow> = Vec::new();
        let mut any = false;
        let mut i: usize = 0;
        while i < self.edges.len()
            invariant
                i <= self.edges.len(),
                self.edges() == old_edges,
                self.nodes() == old(self).nodes(),
                old_edges == old(self).edges(),
                r == (RelationModel { from: from@, to: to@, relation_type: rel@ }),
                out.len() == i,
                edge_views(out@) == close_where(old_edges, relation_hit(r, owner.view()), now@).take(i as int),
                any == exists|j: int| 0 <= j < i && #[trigger] same_relation(old_edges[j], r, owner.view()) && active(old_edges[j]),
            decreases self.edges.len() - i,
        {
            let e = &self.edges[i];
            let hit = str_eq(e.from.as_str(), from.as_str()) && str_eq(e.to.as_str(), to.as_str())
                && str_eq(e.relation_type.as_str(), rel.as_str()) && row_eq(&e.owner, owner)
                && e.valid_until.is_none();
            assert(old_edges[i as int] == e.view());
            let ghost ce = close_where(old_edges, relation_hit(r, owner.view()), now@);
            assert(ce[i as int] == (if active(old_edges[i as int]) && same_relation(old_edges[i as int], r, owner.view()) {
                closed_at(old_edges[i as int], now@)
            } else {
                old_edges[i as int]
            }));
            let ghost prev = out@;
            if hit {
                out.push(e.closed(now));
                any = true;
                assert(same_relation(old_edges[i as int], r, owner.view()) && active(old_edges[i as int]));
            } else {
                out.push(e.duplicate());
                assert(!(same_relation(old_edges[i as int], r, owner.view()) && active(old_edges[i as int])));
            }
            proof {
                assert(out@.len() == i + 1);
                assert(edge_views(out@)[i as int] == ce[i as int]);
                assert forall|k: int| 0 <= k < i implies edge_views(out@)[k] == ce[k] by {
                    assert(out@[k] == prev[k]);
                    assert(edge_views(prev)[k] == ce.take(i as int)[k]);
                }
                assert(edge_views(out@) =~= ce.take(i + 1));
            }
            i += 1;
        }
        proof {
            assert(close_where(old_edges, relation_hit(r, owner.view()), now@).take(self.edges.len() as int)
                =~= close_where(old_edges, relation_hit(r, owner.view()), now@));
        }
        self.edges = out;
        any
    }

    /// Deletes the given relations under `scope` at instant `now`: each closes its active
    /// versions there; nothing is erased.
    pub fn delete_relations_at(&mut self, relations: Vec<Relation>, scope: &MemoryScope, now: &str)
        ensures
            final(self).edges() == remove_relations(old(self).edges(), relation_views(relations@), row_scope_of(*scope), now@),
            final(self).nodes() == old(self).nodes(),
    {
        let owner = RowScope::from_scope(scope);
        let now_s = owned(now);
        let ghost rv = relation_views(relations@);
        let mut i: usize = 0;
        while i < relations.len()
            invariant
                i <= relations.len(),
                owner.view() == row_scope_of(*scope),
                now_s@ == now@,
                rv == relation_views(relations@),
                self.edges() == remove_relations(old(self).edges(), rv.take(i as int), row_scope_of(*scope), now@),
                self.nodes() == old(self).nodes(),
            decreases relations.len() - i,
        {
            proof {
                assert(rv.take(i + 1).drop_last() =~= rv.take(i as int));
                assert(rv.take(i + 1).last() == relations@[i as int].view());
            }
            self.close_relation(&relations[i].from, &relations[i].to, &relations[i].relation_type, &owner, &now_s);
            i += 1;
        }
        proof {
            assert(rv.take(relations.len() as int) =~= rv);
        }
    }

    /// Deletes the given relations under `scope` now (see `delete_relations_at`).
    pub fn delete_relations(&mut self, relations: Vec<Relation>, scope: &MemoryScope)
        ensures
            exists|now: Seq<char>| final(self).edges() == #[trigger] remove_relations(old(self).edges(), relation_views(relations@), row_scope_of(*scope), now),
            final(self).nodes() == old(self).nodes(),
    {
        let now = utc_timestamp();
        self.delete_relations_at(relations, scope, now.as_str());
    }

    /// Closes, at `now`, the active versions of one relation under `scope`; returns whether
    /// there was one.
    pub fn invalidate_edge_at(&mut self, from_name: &str, to_name: &str, relation_type: &str, scope: &MemoryScope, now: &str) -> (b: bool)
        ensures
            ({
                let r = RelationModel { from: from_name@, to: to_name@, relation_type: relation_type@ };
                &&& final(self).edges() == close_where(old(self).edges(), relation_hit(r, row_scope_of(*scope)), now@)
                &&& b == has_active(old(self).edges(), r, row_scope_of(*scope))
            }),
            final(self).nodes() == old(self).nodes(),
    {
        let owner = RowScope::from_scope(scope);
        self.close_relation(&owned(from_name), &owned(to_name), &owned(relation_type), &owner, &owned(now))
    }

    /// Closes the active versions of one relation under `scope` now (see `invalidate_edge_at`).
    pub fn invalidate_edge(&mut self, from_name: &str, to_name: &str, relation_type: &str, scope: &MemoryScope) -> (b: bool)
        ensures
            ({
                let r = RelationModel { from: from_name@, to: to_name@, relation_type: relation_type@ };
                &&& exists|now: Seq<char>| final(self).edges() == #[trigger] close_where(old(self).edges(), relation_hit(r, row_scope_of(*scope)), now)
                &&& b == has_active(old(self).edges(), r, row_scope_of(*scope))
            }),
            final(self).nodes() == old(self).nodes(),
    {
        let now = utc_timestamp();
        self.invalidate_edge_at(from_name, to_name, relation_type, scope, now.as_str())
    }
}

impl NodeRow {
    /// The entity a row stores.
    pub fn entity(&self) -> (r: Entity)
        ensures
            r.view() == entity_of(self.view()),
    {
        Entity { name: self.name.clone(), entity_type: self.entity_type.clone(), observations: clone_strings(&self.observations) }
    }
}

impl EdgeRow {
    /// The relation a version stores.
    pub fn relation(&self) -> (r: Relation)
        ensures
            r.view() == relation_of(self.view()),
    {
        Relation { from: self.from.clone(), to: self.to.clone(), relation_type: self.relation_type.clone() }
    }
}

impl GraphMemory {
    fn visible_entity_list(&self, scope: &MemoryScope) -> (r: Vec<Entity>)
        ensures
            entity_views(r@) == visible_entities(self.nodes(), *scope),
    {
        let mut out: Vec<Entity> = Vec::new();
        let mut i: usize = 0;
        while i < self.nodes.len()
            invariant
                i <= self.nodes.len(),
                entity_views(out@) == visible_entities(self.nodes().take(i as int), *scope),
            decreases self.nodes.len() - i,
        {
            proof {
                assert(self.nodes().take(i + 1) =~= self.nodes().take(i as int).push(self.nodes@[i as int]@));
                lemma_filter_map_push(self.nodes().take(i as int), self.nodes@[i as int]@, node_visible(*scope), to_entity());
            }
            if is_visible(scope, &self.nodes[i].owner) {
                out.push(self.nodes[i].entity());
            }
            assert(entity_views(out@) =~= visible_entities(self.nodes().take(i + 1), *scope));
            i += 1;
        }
        assert(self.nodes().take(self.nodes.len() as int) =~= self.nodes());
        out
    }

    fn visible_relation_list(&self, scope: &MemoryScope) -> (r: Vec<Relation>)
        ensures
            relation_views(r@) == visible_relations(self.edges(), *scope),
    {
        let mut out: Vec<Relation> = Vec::new();
        let mut i: usize = 0;
        while i < self.edges.len()
            invariant
                i <= self.edges.len(),
                relation_views(out@) == visible_relations(self.edges().take(i as int), *scope),
            decreases self.edges.len() - i,
        {
            proof {
                assert(self.edges().take(i + 1) =~= self.edges().take(i as int).push(self.edges@[i as int]@));
                lemma_filter_map_push(self.edges().take(i as int), self.edges@[i as int]@, edge_live(*scope), to_relation());
            }
            if is_visible(scope, &self.edges[i].owner) && self.edges[i].valid_until.is_none() {
                out.push(self.edges[i].relation());
            }
            assert(relation_views(out@) =~= visible_relations(self.edges().take(i + 1), *scope));
            i += 1;
        }
        assert(self.edges().take(self.edges.len() as int) =~= self.edges());
        out
    }

    /// The entities visible to `scope` and the active relations visible to it, in storage order.
    pub fn read_graph(&self, scope: &MemoryScope) -> (r: KnowledgeGraph)
        ensures
            entity_views(r.entities@) == visible_entities(self.nodes(), *scope),
            relation_views(r.relations@) == visible_relations(self.edges(), *scope),
    {
        KnowledgeGraph { entities: self.visible_entity_list(scope), relations: self.visible_relation_list(scope) }
    }

    /// The graph as it stood at instant `as_of`: the entities visible to `scope`, and the
    /// relations visible to it whose validity interval contains `as_of`.
    pub fn query_as_of(&self, as_of: &str, scope: &MemoryScope) -> (r: KnowledgeGraph)
        ensures
            entity_views(r.entities@) == visible_entities(self.nodes(), *scope),
            relation_views(r.relations@) == relations_as_of(self.edges(), *scope, as_of@),
    {
        let entities = self.visible_entity_list(scope);
        let t = crate::text::chars_of(as_of);
        let mut out: Vec<Relation> = Vec::new();
        let mut i: usize = 0;
        while i < self.edges.len()
            invariant
                i <= self.edges.len(),
                t@ == as_of@,
                relation_views(out@) == relations_as_of(self.edges().take(i as int), *scope, as_of@),
            decreases self.edges.len() - i,
        {
            proof {
                assert(self.edges().take(i + 1) =~= self.edges().take(i as int).push(self.edges@[i as int]@));
                lemma_filter_map_push(self.edges().take(i as int), self.edges@[i as int]@, edge_valid(*scope, as_of@), to_relation());
            }
            let e = &self.edges[i];
            let from = crate::text::chars_of(e.valid_from.as_str());
            let started = !str_lt(&t, &from);
            let open = match &e.valid_until {
                None => true,
                Some(u) => {
                    let uv = crate::text::chars_of(u.as_str());
                    str_lt(&t, &uv)
                }
            };
            proof {
                lemma_seq_lt_total(t@, from@);
            }
            if is_visible(scope, &e.owner) && started && open {
                out.push(e.relation());
            }
            assert(relation_views(out@) =~= relations_as_of(self.edges().take(i + 1), *scope, as_of@));
            i += 1;
        }
        assert(self.edges().take(self.edges.len() as int) =~= self.edges());
        KnowledgeGraph { entities, relations: out }
    }
}

/// Any two character sequences are ordered one way or the other, or equal.
pub proof fn lemma_seq_lt_total(a: Seq<char>, b: Seq<char>)
    ensures
        seq_le(b, a) <==> !seq_lt(a, b),
    decreases a.len(),
{
    if a.len() > 0 && b.len() > 0 {
        lemma_seq_lt_total(a.drop_first(), b.drop_first());
        if a[0] == b[0] {
            if a.drop_first() == b.drop_first() {
                assert forall|i: int| 0 <= i < a.len() implies a[i] == b[i] by {
                    if i > 0 {
                        assert(a[i] == a.drop_first()[i - 1]);
                        assert(b[i] == b.drop_first()[i - 1]);
                    }
                }
                assert(a =~= b);
            }
            if a == b {
                assert(a.drop_first() == b.drop_first());
            }
        } else {
            assert((a[0] as int) != (b[0] as int));
            assert(a != b);
            assert(seq_lt(a, b) == ((a[0] as int) < (b[0] as int)));
            assert(seq_lt(b, a) == ((b[0] as int) < (a[0] as int)));
        }
    } else if a.len() == 0 && b.len() == 0 {
        assert(a =~= b);
    }
}

/// No two elements of `s` share a key.
pub open spec fn keys_unique<A>(s: Seq<A>, key: spec_fn(A) -> Seq<char>) -> bool {
    forall|a: int, b: int| 0 <= a < b < s.len() ==> key(s[a]) != key(s[b])
}

/// Replacing by key keeps keys unique: dropping every element with the key of `x` and
/// appending `x` leaves no two elements with the same key.
pub proof fn lemma_replace_keeps_keys_unique<A>(s: Seq<A>, key: spec_fn(A) -> Seq<char>, p: spec_fn(A) -> bool, x: A)
    requires
        keys_unique(s, key),
        forall|y: A| #[trigger] p(y) == (key(y) != key(x)),
    ensures
        keys_unique(s.filter(p).push(x), key),
    decreases s.len(),
{
    if s.len() > 0 {
        let d = s.drop_last();
        assert(keys_unique(d, key));
        lemma_replace_keeps_keys_unique(d, key, p, x);
        assert(d.push(s.last()) =~= s);
        lemma_filter_push(d, s.last(), p);
        let fd = d.filter(p);
        let t = s.filter(p).push(x);
        if p(s.last()) {
            let sf = s.filter(p);
            assert(sf == fd.push(s.last()));
            assert forall|a: int, b: int| 0 <= a < b < t.len() implies key(t[a]) != key(t[b]) by {
                if b == t.len() - 1 {
                    assert(t[a] == sf[a]);
                    s.lemma_filter_pred(p, a);
                } else if b == t.len() - 2 {
                    assert(t[b] == s.last());
                    assert(t[a] == fd[a]);
                    assert(fd.contains(fd[a]));
                    d.lemma_filter_contains_rev(p, fd[a]);
                    let k = choose|k: int| 0 <= k < d.len() && d[k] == fd[a];
                    assert(s[k] == d[k] && s[s.len() - 1] == s.last());
                } else {
                    assert(t[a] == fd.push(x)[a] && t[b] == fd.push(x)[b]);
                }
            }
        } else {
            assert(t =~= fd.push(x));
        }
    }
}

/// Filtering a sequence extended by one element.
pub proof fn lemma_filter_push<A>(s: Seq<A>, x: A, p: spec_fn(A) -> bool)
    ensures
        s.push(x).filter(p) == (if p(x) { s.filter(p).push(x) } else { s.filter(p) }),
{
    reveal_with_fuel(Seq::<_>::filter, 1);
    assert(s.push(x).drop_last() =~= s);
}

/// The first index at or after `from` whose row is entity `name` under `owner`, or -1.
pub open spec fn node_index(nodes: Seq<NodeModel>, name: Seq<char>, owner: Owner) -> int
    decreases nodes.len(),
{
    if nodes.len() == 0 {
        -1
    } else if nodes[0].name == name && nodes[0].owner == owner {
        0
    } else {
        let r = node_index(nodes.drop_first(), name, owner);
        if r < 0 { -1 } else { r + 1 }
    }
}

proof fn lemma_node_index(nodes: Seq<NodeModel>, name: Seq<char>, owner: Owner, j: int)
    requires
        0 <= j <= nodes.len(),
        forall|k: int| 0 <= k < j ==> !(#[trigger] nodes[k].name == name && nodes[k].owner == owner),
    ensures
        j < nodes.len() && nodes[j].name == name && nodes[j].owner == owner ==> node_index(nodes, name, owner) == j,
        j == nodes.len() ==> node_index(nodes, name, owner) == -1,
    decreases j,
{
    if j > 0 {
        assert forall|k: int| 0 <= k < j - 1 implies !(#[trigger] nodes.drop_first()[k].name == name && nodes.drop_first()[k].owner == owner) by {
            assert(nodes.drop_first()[k] == nodes[k + 1]);
        }
        lemma_node_index(nodes.drop_first(), name, owner, j - 1);
    }
}

/// The search for an entity row fails exactly when there is no such row.
proof fn lemma_node_index_has(nodes: Seq<NodeModel>, name: Seq<char>, owner: Owner)
    ensures
        (node_index(nodes, name, owner) < 0) == !has_node(nodes, name, owner),
        node_index(nodes, name, owner) < nodes.len(),
    decreases nodes.len(),
{
    if nodes.len() > 0 {
        lemma_node_index_has(nodes.drop_first(), name, owner);
        if has_node(nodes, name, owner) {
            let k = choose|k: int| 0 <= k < nodes.len() && #[trigger] nodes[k].name == name && nodes[k].owner == owner;
            if k > 0 {
                assert(nodes.drop_first()[k - 1] == nodes[k]);
            }
        }
        if has_node(nodes.drop_first(), name, owner) {
            let k = choose|k: int| 0 <= k < nodes.drop_first().len() && #[trigger] nodes.drop_first()[k].name == name && nodes.drop_first()[k].owner == owner;
            assert(nodes[k + 1] == nodes.drop_first()[k]);
        }
    }
}

/// Sets the observations of every row of entity `name` under `owner`.
pub open spec fn set_observations(nodes: Seq<NodeModel>, name: Seq<char>, owner: Owner, obs: Seq<Seq<char>>) -> Seq<NodeModel> {
    nodes.map_values(|n: NodeModel| if n.name == name && n.owner == owner { NodeModel { observations: obs, ..n } } else { n })
}

/// Adding observations in order to a list: each one not yet present is appended.
/// Returns the new list and the observations appended.
pub open spec fn merge_observations(cur: Seq<Seq<char>>, contents: Seq<Seq<char>>) -> (Seq<Seq<char>>, Seq<Seq<char>>)
    decreases contents.len(),
{
    if contents.len() == 0 {
        (cur, Seq::empty())
    } else {
        let (c, a) = merge_observations(cur, contents.drop_last());
        let x = contents.last();
        if c.contains(x) {
            (c, a)
        } else {
            (c.push(x), a.push(x))
        }
    }
}

/// One request to add observations: the entity's name and the contents.
pub open spec fn add_request(i: AddObservationsInput) -> (Seq<char>, Seq<Seq<char>>) {
    (i.entity_name@, string_views(i.contents@))
}

/// The error message for a missing entity.
pub open spec fn not_found_message(name: Seq<char>) -> Seq<char> {
    "Entity with name "@ + name + " not found in scope"@
}

/// Adding observations to entities in order, under `owner`.  For each request, the first
/// row of the entity supplies the current list, the new observations are appended, and
/// every row of the entity gets the result.  A request for an entity with no row stops the
/// run, keeping the earlier updates: the third part is then the missing name.
pub open spec fn add_observations_all(nodes: Seq<NodeModel>, reqs: Seq<(Seq<char>, Seq<Seq<char>>)>, owner: Owner)
    -> (Seq<NodeModel>, Seq<(Seq<char>, Seq<Seq<char>>)>, Option<Seq<char>>)
    decreases reqs.len(),
{
    if reqs.len() == 0 {
        (nodes, Seq::empty(), None)
    } else {
        let (n, out, err) = add_observations_all(nodes, reqs.drop_last(), owner);
        let (name, contents) = reqs.last();
        if err is Some {
            (n, out, err)
        } else {
            let i = node_index(n, name, owner);
            if i < 0 {
                (n, out, Some(name))
            } else {
                let (merged, added) = merge_observations(n[i].observations, contents);
                (set_observations(n, name, owner, merged), out.push((name, added)), None)
            }
        }
    }
}

/// Observations left after removing those listed.
pub open spec fn without(cur: Seq<Seq<char>>, gone: Seq<Seq<char>>) -> Seq<Seq<char>> {
    cur.filter(|o: Seq<char>| !gone.contains(o))
}

/// Removing observations from entities in order, under `owner`: for each request whose
/// entity has a row, every row of the entity gets the first row's list minus the listed
/// observations; requests for missing entities are skipped.
pub open spec fn delete_observations_all(nodes: Seq<NodeModel>, reqs: Seq<(Seq<char>, Seq<Seq<char>>)>, owner: Owner) -> Seq<NodeModel>
    decreases reqs.len(),
{
    if reqs.len() == 0 {
        nodes
    } else {
        let n = delete_observations_all(nodes, reqs.drop_last(), owner);
        let (name, gone) = reqs.last();
        let i = node_index(n, name, owner);
        if i < 0 {
            n
        } else {
            set_observations(n, name, owner, without(n[i].observations, gone))
        }
    }
}

pub open spec fn delete_request(i: DeleteObservationsInput) -> (Seq<char>, Seq<Seq<char>>) {
    (i.entity_name@, string_views(i.observations@))
}

pub open spec fn output_view(o: AddObservationsOutput) -> (Seq<char>, Seq<Seq<char>>) {
    (o.entity_name@, string_views(o.added_observations@))
}

impl GraphMemory {
    fn first_node(&self, name: &str, owner: &RowScope) -> (r: Option<usize>)
        ensures
            match r {
                Some(i) => i < self.nodes.len() && node_index(self.nodes(), name@, owner.view()) == i,
                None => node_index(self.nodes(), name@, owner.view()) == -1,
            },
    {
        let r = self.find_node(name, owner);
        proof {
            match r {
                Some(i) => {
                    assert forall|k: int| 0 <= k < i implies !(#[trigger] self.nodes()[k].name == name@ && self.nodes()[k].owner == owner.view()) by {
                        assert(self.nodes()[k] == self.nodes@[k]@);
                    }
                    assert(self.nodes()[i as int] == self.nodes@[i as int]@);
                    lemma_node_index(self.nodes(), name@, owner.view(), i as int);
                }
                None => {
                    assert forall|k: int| 0 <= k < self.nodes().len() implies !(#[trigger] self.nodes()[k].name == name@ && self.nodes()[k].owner == owner.view()) by {
                        if self.nodes()[k].name == name@ && self.nodes()[k].owner == owner.view() {
                            assert(has_node(self.nodes(), name@, owner.view()));
                        }
                    }
                    lemma_node_index(self.nodes(), name@, owner.view(), self.nodes().len() as int);
                }
            }
        }
        r
    }

    fn set_obs_exec(&mut self, name: &str, owner: &RowScope, obs: &Vec<String>)
        ensures
            final(self).nodes() == set_observations(old(self).nodes(), name@, owner.view(), string_views(obs@)),
            final(self).edges() == old(self).edges(),
    {
        let ghost old_nodes = self.nodes();
        let mut out: Vec<NodeRow> = Vec::new();
        let mut i: usize = 0;
        while i < self.nodes.len()
            invariant
                i <= self.nodes.len(),
                self.nodes() == old_nodes,
                self.edges() == old(self).edges(),
                old_nodes == old(self).nodes(),
                out.len() == i,
                node_views(out@) == set_observations(old_nodes, name@, owner.view(), string_views(obs@)).take(i as int),
            decreases self.nodes.len() - i,
        {
            let n = &self.nodes[i];
            assert(old_nodes[i as int] == n.view());
            let ghost prev = out@;
            if str_eq(n.name.as_str(), name) && row_eq(&n.owner, owner) {
                out.push(NodeRow { name: n.name.clone(), entity_type: n.entity_type.clone(), observations: clone_strings(obs), owner: n.owner.duplicate() });
            } else {
                out.push(n.duplicate());
            }
            proof {
                let target = set_observations(old_nodes, name@, owner.view(), string_views(obs@));
                assert forall|k: int| 0 <= k < i implies node_views(out@)[k] == target[k] by {
                    assert(out@[k] == prev[k]);
                    assert(node_views(prev)[k] == target.take(i as int)[k]);
                }
                assert(node_views(out@) =~= target.take(i + 1));
            }
            i += 1;
        }
        proof {
            assert(set_observations(old_nodes, name@, owner.view(), string_views(obs@)).take(self.nodes.len() as int)
                =~= set_observations(old_nodes, name@, owner.view(), string_views(obs@)));
        }
        self.nodes = out;
    }

    /// Adds observations to entities under `scope`, in order (see `add_observations_all`).
    /// Returns, per entity, the observations that were new; fails on the first entity that
    /// has no row there, keeping the updates made before it.
    pub fn add_observations(&mut self, observations: Vec<AddObservationsInput>, scope: &MemoryScope) -> (r: Result<Vec<AddObservationsOutput>, GraphError>)
        ensures
            ({
                let (nodes, out, err) = add_observations_all(old(self).nodes(), observations@.map_values(|i: AddObservationsInput| add_request(i)), row_scope_of(*scope));
                &&& final(self).nodes() == nodes
                &&& match r {
                    Ok(v) => err is None && v@.map_values(|o: AddObservationsOutput| output_view(o)) == out,
                    Err(e) => err is Some && (e matches GraphError::EntityNotFound(m) && m@ == not_found_message(err.unwrap())),
                }
            }),
            final(self).edges() == old(self).edges(),
    {
        let owner = RowScope::from_scope(scope);
        let ghost o = owner.view();
        let ghost reqs = observations@.map_values(|i: AddObservationsInput| add_request(i));
        let mut outs: Vec<AddObservationsOutput> = Vec::new();
        let mut i: usize = 0;
        while i < observations.len()
            invariant
                i <= observations.len(),
                o == owner.view(),
                o == row_scope_of(*scope),
                reqs == observations@.map_values(|i: AddObservationsInput| add_request(i)),
                (self.nodes(), outs@.map_values(|o: AddObservationsOutput| output_view(o)), None::<Seq<char>>) == add_observations_all(old(self).nodes(), reqs.take(i as int), o),
                self.edges() == old(self).edges(),
            decreases observations.len() - i,
        {
            proof {
                assert(reqs.take(i + 1).drop_last() =~= reqs.take(i as int));
                assert(reqs.take(i + 1).last() == add_request(observations@[i as int]));
            }
            let req = &observations[i];
            let idx = match self.first_node(req.entity_name.as_str(), &owner) {
                Some(k) => k,
                None => {
                    let mut msg = owned("Entity with name ");
                    msg.append(req.entity_name.as_str());
                    msg.append(" not found in scope");
                    proof {
                        lemma_add_observations_stuck(old(self).nodes(), reqs, (i + 1) as int, o);
                    }
                    return Err(GraphError::EntityNotFound(msg));
                }
            };
            let ghost cur0 = self.nodes()[idx as int].observations;
            assert(cur0 == string_views(self.nodes@[idx as int].observations@));
            let mut cur = clone_strings(&self.nodes[idx].observations);
            let mut added: Vec<String> = Vec::new();
            let ghost contents = string_views(req.contents@);
            let mut j: usize = 0;
            while j < req.contents.len()
                invariant
                    j <= req.contents.len(),
                    contents == string_views(req.contents@),
                    (string_views(cur@), string_views(added@)) == merge_observations(cur0, contents.take(j as int)),
                decreases req.contents.len() - j,
            {
                proof {
                    assert(contents.take(j + 1).drop_last() =~= contents.take(j as int));
                    assert(contents.take(j + 1).last() == req.contents@[j as int]@);
                }
                if !contains_string(&cur, req.contents[j].as_str()) {
                    cur.push(req.contents[j].clone());
                    added.push(req.contents[j].clone());
                    assert(string_views(cur@) =~= merge_observations(cur0, contents.take(j + 1)).0);
                    assert(string_views(added@) =~= merge_observations(cur0, contents.take(j + 1)).1);
                }
                j += 1;
            }
            proof {
                assert(contents.take(req.contents.len() as int) =~= contents);
            }
            self.set_obs_exec(req.entity_name.as_str(), &owner, &cur);
            let ghost prev = outs@;
            outs.push(AddObservationsOutput { entity_name: req.entity_name.clone(), added_observations: added });
            proof {
                assert(outs@.map_values(|o: AddObservationsOutput| output_view(o)) =~= prev.map_values(|o: AddObservationsOutput| output_view(o)).push(output_view(outs@.last())));
            }
            i += 1;
        }
        proof {
            assert(reqs.take(observations.len() as int) =~= reqs);
        }
        Ok(outs)
    }

    /// Removes the listed observations from entities under `scope`, in order (see
    /// `delete_observations_all`).  When some listed entity has no row there, nothing is
    /// changed and the first such entity is reported as not found.
    pub fn delete_observations(&mut self, deletions: Vec<DeleteObservationsInput>, scope: &MemoryScope) -> (r: Result<(), GraphError>)
        ensures
            r is Err <==> exists|k: int| 0 <= k < deletions.len() && !has_node(old(self).nodes(), #[trigger] deletions@[k].entity_name@, row_scope_of(*scope)),
            match r {
                Ok(_) => final(self).nodes() == delete_observations_all(old(self).nodes(), deletions@.map_values(|i: DeleteObservationsInput| delete_request(i)), row_scope_of(*scope)),
                Err(e) => final(self).nodes() == old(self).nodes() && exists|k: int| 0 <= k < deletions.len()
                    && !has_node(old(self).nodes(), #[trigger] deletions@[k].entity_name@, row_scope_of(*scope))
                    && (forall|j: int| 0 <= j < k ==> has_node(old(self).nodes(), #[trigger] deletions@[j].entity_name@, row_scope_of(*scope)))
                    && (e matches GraphError::EntityNotFound(m) && m@ == not_found_message(deletions@[k].entity_name@)),
            },
            final(self).edges() == old(self).edges(),
    {
        let owner = RowScope::from_scope(scope);
        let ghost o = owner.view();
        let mut c: usize = 0;
        while c < deletions.len()
            invariant
                c <= deletions.len(),
                o == owner.view(),
                o == row_scope_of(*scope),
                self.nodes() == old(self).nodes(),
                self.edges() == old(self).edges(),
                forall|j: int| 0 <= j < c ==> has_node(old(self).nodes(), #[trigger] deletions@[j].entity_name@, o),
            decreases deletions.len() - c,
        {
            let name = deletions[c].entity_name.as_str();
            proof {
                lemma_node_index_has(self.nodes(), name@, o);
            }
            if self.first_node(name, &owner).is_none() {
                let mut msg = owned("Entity with name ");
                msg.append(name);
                msg.append(" not found in scope");
                return Err(GraphError::EntityNotFound(msg));
            }
            c += 1;
        }
        let ghost reqs = deletions@.map_values(|i: DeleteObservationsInput| delete_request(i));
        let mut i: usize = 0;
        while i < deletions.len()
            invariant
                i <= deletions.len(),
                o == owner.view(),
                o == row_scope_of(*scope),
                reqs == deletions@.map_values(|i: DeleteObservationsInput| delete_request(i)),
                self.nodes() == delete_observations_all(old(self).nodes(), reqs.take(i as int), o),
                self.edges() == old(self).edges(),
            decreases deletions.len() - i,
        {
            proof {
                assert(reqs.take(i + 1).drop_last() =~= reqs.take(i as int));
                assert(reqs.take(i + 1).last() == delete_request(deletions@[i as int]));
            }
            let req = &deletions[i];
            match self.first_node(req.entity_name.as_str(), &owner) {
                Some(idx) => {
                    let ghost cur0 = self.nodes()[idx as int].observations;
                    assert(cur0 == string_views(self.nodes@[idx as int].observations@));
                    let ghost gone = string_views(req.observations@);
                    let mut kept: Vec<String> = Vec::new();
                    let mut j: usize = 0;
                    while j < self.nodes[idx].observations.len()
                        invariant
                            idx < self.nodes.len(),
                            j <= self.nodes@[idx as int].observations.len(),
                            cur0 == string_views(self.nodes@[idx as int].observations@),
                            gone == string_views(req.observations@),
                            string_views(kept@) == without(cur0.take(j as int), gone),
                        decreases self.nodes@[idx as int].observations.len() - j,
                    {
                        let ob = &self.nodes[idx].observations[j];
                        proof {
                            assert(cur0.take(j + 1) =~= cur0.take(j as int).push(ob@));
                            lemma_filter_push(cur0.take(j as int), ob@, |x: Seq<char>| !gone.contains(x));
                        }
                        let ghost prev = kept@;
                        if !contains_string(&req.observations, ob.as_str()) {
                            kept.push(ob.clone());
                            assert(string_views(kept@) =~= string_views(prev).push(ob@));
                        }
                        j += 1;
                    }
                    proof {
                        assert(cur0.take(cur0.len() as int) =~= cur0);
                    }
                    self.set_obs_exec(req.entity_name.as_str(), &owner, &kept);
                }
                None => {}
            }
            i += 1;
        }
        proof {
            assert(reqs.take(deletions.len() as int) =~= reqs);
        }
        Ok(())
    }
}

proof fn lemma_add_observations_stuck(nodes: Seq<NodeModel>, reqs: Seq<(Seq<char>, Seq<Seq<char>>)>, k: int, owner: Owner)
    requires
        0 <= k <= reqs.len(),
        add_observations_all(nodes, reqs.take(k), owner).2 is Some,
    ensures
        add_observations_all(nodes, reqs, owner) == add_observations_all(nodes, reqs.take(k), owner),
    decreases reqs.len() - k,
{
    if k < reqs.len() {
        assert(reqs.drop_last().take(k) =~= reqs.take(k));
        lemma_add_observations_stuck(nodes, reqs.drop_last(), k, owner);
    } else {
        assert(reqs.take(k) =~= reqs);
    }
}

impl GraphMemory {
    fn remove_node_rows(&mut self, name: &String, owner: &RowScope)
        ensures
            final(self).nodes() == old(self).nodes().filter(node_kept(name@, owner.view())),
            final(self).edges() == old(self).edges(),
    {
        let ghost old_nodes = self.nodes();
        let mut out: Vec<NodeRow> = Vec::new();
        let mut i: usize = 0;
        while i < self.nodes.len()
            invariant
                i <= self.nodes.len(),
                self.nodes() == old_nodes,
                old_nodes == old(self).nodes(),
                self.edges() == old(self).edges(),
                node_views(out@) == old_nodes.take(i as int).filter(node_kept(name@, owner.view())),
            decreases self.nodes.len() - i,
        {
            let n = &self.nodes[i];
            proof {
                assert(old_nodes.take(i + 1) =~= old_nodes.take(i as int).push(n.view()));
                lemma_filter_push(old_nodes.take(i as int), n.view(), node_kept(name@, owner.view()));
            }
            let ghost prev = out@;
            if !(str_eq(n.name.as_str(), name.as_str()) && row_eq(&n.owner, owner)) {
                out.push(n.duplicate());
                assert(node_views(out@) =~= node_views(prev).push(n.view()));
            }
            i += 1;
        }
        assert(old_nodes.take(self.nodes.len() as int) =~= old_nodes);
        self.nodes = out;
    }

    fn close_touching(&mut self, name: &String, owner: &RowScope, now: &String)
        ensures
            final(self).edges() == close_where(old(self).edges(), touching_hit(name@, owner.view()), now@),
            final(self).nodes() == old(self).nodes(),
    {
        let ghost old_edges = self.edges();
        let ghost ce = close_where(old_edges, touching_hit(name@, owner.view()), now@);
        let mut out: Vec<EdgeRow> = Vec::new();
        let mut i: usize = 0;
        while i < self.edges.len()
            invariant
                i <= self.edges.len(),
                self.edges() == old_edges,
                self.nodes() == old(self).nodes(),
                old_edges == old(self).edges(),
                ce == close_where(old_edges, touching_hit(name@, owner.view()), now@),
                out.len() == i,
                edge_views(out@) == ce.take(i as int),
            decreases self.edges.len() - i,
        {
            let e = &self.edges[i];
            let hit = (str_eq(e.from.as_str(), name.as_str()) || str_eq(e.to.as_str(), name.as_str()))
                && row_eq(&e.owner, owner) && e.valid_until.is_none();
            assert(old_edges[i as int] == e.view());
            let ghost prev = out@;
            if hit {
                out.push(e.closed(now));
            } else {
                out.push(e.duplicate());
            }
            proof {
                assert forall|k: int| 0 <= k < i implies edge_views(out@)[k] == ce[k] by {
                    assert(out@[k] == prev[k]);
                    assert(edge_views(prev)[k] == ce.take(i as int)[k]);
                }
                assert(edge_views(out@) =~= ce.take(i + 1));
            }
            i += 1;
        }
        assert(ce.take(self.edges.len() as int) =~= ce);
        self.edges = out;
    }

    /// Deletes the named entities under `scope` at instant `now`, in order: their rows there
    /// are erased and the active relation versions touching them there are closed.
    pub fn delete_entities_at(&mut self, names: Vec<String>, scope: &MemoryScope, now: &str)
        ensures
            (final(self).nodes(), final(self).edges()) == remove_entities(old(self).nodes(), old(self).edges(), string_views(names@), row_scope_of(*scope), now@),
    {
        let owner = RowScope::from_scope(scope);
        let now_s = owned(now);
        let ghost nv = string_views(names@);
        let mut i: usize = 0;
        while i < names.len()
            invariant
                i <= names.len(),
                owner.view() == row_scope_of(*scope),
                now_s@ == now@,
                nv == string_views(names@),
                (self.nodes(), self.edges()) == remove_entities(old(self).nodes(), old(self).edges(), nv.take(i as int), row_scope_of(*scope), now@),
            decreases names.len() - i,
        {
            proof {
                assert(nv.take(i + 1).drop_last() =~= nv.take(i as int));
                assert(nv.take(i + 1).last() == names@[i as int]@);
            }
            self.remove_node_rows(&names[i], &owner);
            self.close_touching(&names[i], &owner, &now_s);
            i += 1;
        }
        assert(nv.take(names.len() as int) =~= nv);
    }

    /// Deletes the named entities under `scope` now (see `delete_entities_at`).
    pub fn delete_entities(&mut self, names: Vec<String>, scope: &MemoryScope)
        ensures
            exists|now: Seq<char>| (final(self).nodes(), final(self).edges()) == #[trigger] remove_entities(old(self).nodes(), old(self).edges(), string_views(names@), row_scope_of(*scope), now),
    {
        let now = utc_timestamp();
        self.delete_entities_at(names, scope, now.as_str());
    }
}

/// Versions of relations touching `name`, of the given type if any, visible to `scope`.
pub open spec fn history_hit(name: Seq<char>, rel: Option<Seq<char>>, scope: MemoryScope) -> spec_fn(EdgeModel) -> bool {
    |e: EdgeModel| (e.from == name || e.to == name)
        && match rel { None => true, Some(r) => e.relation_type == r }
        && visible(scope, e.owner)
}

/// Inserting a version into a list ordered by start instant, after every version that
/// starts no later (so versions with equal starts keep their storage order).
pub open spec fn insert_by_start(sorted: Seq<EdgeModel>, x: EdgeModel) -> Seq<EdgeModel>
    decreases sorted.len(),
{
    if sorted.len() == 0 {
        seq![x]
    } else if seq_le(sorted.last().valid_from, x.valid_from) {
        sorted.push(x)
    } else {
        insert_by_start(sorted.drop_last(), x).push(sorted.last())
    }
}

/// Versions ordered by start instant, stably.
pub open spec fn sort_by_start(s: Seq<EdgeModel>) -> Seq<EdgeModel>
    decreases s.len(),
{
    if s.len() == 0 {
        s
    } else {
        insert_by_start(sort_by_start(s.drop_last()), s.last())
    }
}

impl RelationHistoryItem {
    pub open spec fn view(&self) -> EdgeModel {
        EdgeModel {
            from: self.from@,
            to: self.to@,
            relation_type: self.relation_type@,
            owner: (Seq::empty(), Seq::empty(), Seq::empty()),
            valid_from: self.valid_from@,
            valid_until: opt_view(self.valid_until),
            superseded_by: opt_view(self.superseded_by),
            confidence_ppm: self.confidence_ppm,
        }
    }
}

/// A stored version with its owner forgotten, as history reports it.
pub open spec fn unowned(e: EdgeModel) -> EdgeModel {
    EdgeModel { owner: (Seq::empty(), Seq::empty(), Seq::empty()), ..e }
}

impl GraphMemory {
    /// Every stored version of the relations touching `entity_name` (of `relation_type`
    /// when given) visible to `scope`, ordered by start instant, equal starts in storage order.
    pub fn query_fact_history(&self, entity_name: &str, relation_type: Option<String>, scope: &MemoryScope) -> (r: Vec<RelationHistoryItem>)
        ensures
            r@.map_values(|h: RelationHistoryItem| h.view())
                == sort_by_start(self.edges().filter(history_hit(entity_name@, opt_view(relation_type), *scope))).map_values(|e: EdgeModel| unowned(e)),
    {
        let ghost hit = history_hit(entity_name@, opt_view(relation_type), *scope);
        let mut sorted: Vec<EdgeRow> = Vec::new();
        let mut i: usize = 0;
        while i < self.edges.len()
            invariant
                i <= self.edges.len(),
                hit == history_hit(entity_name@, opt_view(relation_type), *scope),
                edge_views(sorted@) == sort_by_start(self.edges().take(i as int).filter(hit)),
            decreases self.edges.len() - i,
        {
            let e = &self.edges[i];
            proof {
                assert(self.edges().take(i + 1) =~= self.edges().take(i as int).push(e.view()));
                lemma_filter_push(self.edges().take(i as int), e.view(), hit);
            }
            let type_ok = match &relation_type {
                None => true,
                Some(t) => str_eq(e.relation_type.as_str(), t.as_str()),
            };
            if (str_eq(e.from.as_str(), entity_name) || str_eq(e.to.as_str(), entity_name)) && type_ok && is_visible(scope, &e.owner) {
                let ghost before = self.edges().take(i as int).filter(hit);
                assert(self.edges().take(i as int).filter(hit).push(e.view()).drop_last() =~= before);
                insert_sorted(&mut sorted, e.duplicate());
            }
            i += 1;
        }
        assert(self.edges().take(self.edges.len() as int) =~= self.edges());
        let mut out: Vec<RelationHistoryItem> = Vec::new();
        let mut j: usize = 0;
        while j < sorted.len()
            invariant
                j <= sorted.len(),
                out@.map_values(|h: RelationHistoryItem| h.view()) == edge_views(sorted@).take(j as int).map_values(|e: EdgeModel| unowned(e)),
            decreases sorted.len() - j,
        {
            let e = &sorted[j];
            let ghost prev = out@;
            out.push(RelationHistoryItem {
                from: e.from.clone(),
                to: e.to.clone(),
                relation_type: e.relation_type.clone(),
                valid_from: e.valid_from.clone(),
                valid_until: crate::scope::clone_opt(&e.valid_until),
                superseded_by: crate::scope::clone_opt(&e.superseded_by),
                confidence_ppm: e.confidence_ppm,
            });
            proof {
                assert(edge_views(sorted@).take(j + 1) =~= edge_views(sorted@).take(j as int).push(e.view()));
                assert(out@.map_values(|h: RelationHistoryItem| h.view()) =~= prev.map_values(|h: RelationHistoryItem| h.view()).push(unowned(e.view())));
                assert(edge_views(sorted@).take(j + 1).map_values(|e: EdgeModel| unowned(e))
                    =~= edge_views(sorted@).take(j as int).map_values(|e: EdgeModel| unowned(e)).push(unowned(e.view())));
            }
            j += 1;
        }
        assert(edge_views(sorted@).take(sorted.len() as int) =~= edge_views(sorted@));
        out
    }
}

/// Inserts `x` into `v` as `insert_by_start` does.
fn insert_sorted(v: &mut Vec<EdgeRow>, x: EdgeRow)
    ensures
        edge_views(final(v)@) == insert_by_start(edge_views(old(v)@), x.view()),
{
    let xf = crate::text::chars_of(x.valid_from.as_str());
    let mut k: usize = v.len();
    assert(edge_views(v@).take(k as int) =~= edge_views(v@));
    assert(edge_views(v@).skip(k as int) =~= Seq::<EdgeModel>::empty());
    assert(insert_by_start(edge_views(v@), x.view()) + Seq::<EdgeModel>::empty() =~= insert_by_start(edge_views(v@), x.view()));
    while k > 0
        invariant
            k <= v.len(),
            v@ == old(v)@,
            xf@ == x.valid_from@,
            insert_by_start(edge_views(v@), x.view()) == insert_by_start(edge_views(v@).take(k as int), x.view()) + edge_views(v@).skip(k as int),
        ensures
            k <= v.len(),
            v@ == old(v)@,
            insert_by_start(edge_views(v@), x.view()) == insert_by_start(edge_views(v@).take(k as int), x.view()) + edge_views(v@).skip(k as int),
            k == 0 || seq_le(v@[k - 1].valid_from@, x.valid_from@),
        decreases k,
    {
        let lf = crate::text::chars_of(v[k - 1].valid_from.as_str());
        let le = !str_lt(&xf, &lf);
        proof {
            lemma_seq_lt_total(xf@, lf@);
            assert(le == seq_le(v@[k - 1].valid_from@, x.valid_from@));
            let t = edge_views(v@).take(k as int);
            assert(t.last() == v@[k - 1].view());
            assert(t.drop_last() =~= edge_views(v@).take(k - 1));
        }
        if le {
            break;
        }
        proof {
            let t = edge_views(v@).take(k as int);
            assert(insert_by_start(t, x.view()) == insert_by_start(t.drop_last(), x.view()).push(t.last()));
            assert(insert_by_start(t.drop_last(), x.view()).push(t.last()) + edge_views(v@).skip(k as int)
                =~= insert_by_start(edge_views(v@).take(k - 1), x.view()) + edge_views(v@).skip(k - 1));
        }
        k -= 1;
    }
    proof {
        let t = edge_views(v@).take(k as int);
        if k == 0 {
            assert(t =~= Seq::<EdgeModel>::empty());
            assert(insert_by_start(t, x.view()) =~= t.push(x.view()));
        } else {
            assert(t.last() == v@[k - 1].view());
            assert(insert_by_start(t, x.view()) =~= t.push(x.view()));
        }
    }
    v.insert(k, x);
    proof {
        let t = edge_views(old(v)@).take(k as int);
        assert(edge_views(v@) =~= t.push(x.view()) + edge_views(old(v)@).skip(k as int));
    }
}

/// The JSON text of a list of strings, as `serde_json::to_string` writes it.
pub uninterp spec fn json_string_list(items: Seq<Seq<char>>) -> Seq<char>;

/// `serde_json::to_string` on a list of strings: its JSON array text.  Serializing
/// strings cannot fail, so the error arm is never taken.
#[verifier::external_body]
pub(crate) fn json_of_strings(v: &Vec<String>) -> (r: String)
    ensures
        r@ == json_string_list(string_views(v@)),
{
    match serde_json::to_string(v) {
        Ok(s) => s,
        Err(_) => String::new(),
    }
}

/// Keeps the first occurrence of each element, in order.
pub open spec fn distinct_first<A>(s: Seq<A>) -> Seq<A>
    decreases s.len(),
{
    if s.len() == 0 {
        s
    } else {
        let p = distinct_first(s.drop_last());
        if p.contains(s.last()) {
            p
        } else {
            p.push(s.last())
        }
    }
}

/// An entity row matches a search pattern by its name, its type or its stored observation list.
pub open spec fn node_matches(n: NodeModel, pat: Seq<char>) -> bool {
    crate::pattern::like(n.name, pat) || crate::pattern::like(n.entity_type, pat)
        || crate::pattern::like(json_string_list(n.observations), pat)
}

/// The search pattern for a query: its lowercase form, anywhere in the field.
pub open spec fn search_pattern(query: Seq<char>) -> Seq<char> {
    crate::pattern::anywhere(crate::text::unicode_lowercase(query))
}

pub open spec fn node_found(pat: Seq<char>) -> spec_fn(NodeModel) -> bool {
    |n: NodeModel| node_matches(n, pat)
}

pub open spec fn node_found_visible(pat: Seq<char>, scope: MemoryScope) -> spec_fn(NodeModel) -> bool {
    |n: NodeModel| node_matches(n, pat) && visible(scope, n.owner)
}

pub open spec fn to_name() -> spec_fn(NodeModel) -> Seq<char> {
    |n: NodeModel| n.name
}

/// Active versions visible to `scope` with an endpoint among `names`.
pub open spec fn edge_touches(names: Seq<Seq<char>>, scope: MemoryScope) -> spec_fn(EdgeModel) -> bool {
    |e: EdgeModel| (names.contains(e.from) || names.contains(e.to)) && visible(scope, e.owner) && active(e)
}

/// The distinct active relations visible to `scope` that touch one of `names`, in order
/// of first storage.
pub open spec fn relations_touching(edges: Seq<EdgeModel>, names: Seq<Seq<char>>, scope: MemoryScope) -> Seq<RelationModel> {
    distinct_first(edges.filter(edge_touches(names, scope)).map_values(to_relation()))
}

/// Search results: the entities visible to `scope` that match, and the distinct active
/// relations visible to it touching any matching entity (of any scope).
pub open spec fn search_entities(nodes: Seq<NodeModel>, query: Seq<char>, scope: MemoryScope) -> Seq<EntityModel> {
    nodes.filter(node_found_visible(search_pattern(query), scope)).map_values(to_entity())
}

pub open spec fn search_relations(nodes: Seq<NodeModel>, edges: Seq<EdgeModel>, query: Seq<char>, scope: MemoryScope) -> Seq<RelationModel> {
    relations_touching(edges, nodes.filter(node_found(search_pattern(query))).map_values(to_name()), scope)
}

/// The index of the first row named `name` and visible to `scope`, or -1.
pub open spec fn visible_index(nodes: Seq<NodeModel>, name: Seq<char>, scope: MemoryScope) -> int
    decreases nodes.len(),
{
    if nodes.len() == 0 {
        -1
    } else if nodes[0].name == name && visible(scope, nodes[0].owner) {
        0
    } else {
        let r = visible_index(nodes.drop_first(), name, scope);
        if r < 0 { -1 } else { r + 1 }
    }
}

/// `opened` as a function of the name.
pub open spec fn opener(nodes: Seq<NodeModel>, scope: MemoryScope) -> spec_fn(Seq<char>) -> Option<EntityModel> {
    |nm: Seq<char>| opened(nodes, nm, scope)
}

/// The entity that opening `name` yields: its first visible row, under the requested name.
pub open spec fn opened(nodes: Seq<NodeModel>, name: Seq<char>, scope: MemoryScope) -> Option<EntityModel> {
    let i = visible_index(nodes, name, scope);
    if i < 0 {
        None
    } else {
        Some(EntityModel { name, entity_type: nodes[i].entity_type, observations: nodes[i].observations })
    }
}

proof fn lemma_visible_index(nodes: Seq<NodeModel>, name: Seq<char>, scope: MemoryScope, j: int)
    requires
        0 <= j <= nodes.len(),
        forall|k: int| 0 <= k < j ==> !(#[trigger] nodes[k].name == name && visible(scope, nodes[k].owner)),
    ensures
        j < nodes.len() && nodes[j].name == name && visible(scope, nodes[j].owner) ==> visible_index(nodes, name, scope) == j,
        j == nodes.len() ==> visible_index(nodes, name, scope) == -1,
    decreases j,
{
    if j > 0 {
        assert forall|k: int| 0 <= k < j - 1 implies !(#[trigger] nodes.drop_first()[k].name == name && visible(scope, nodes.drop_first()[k].owner)) by {
            assert(nodes.drop_first()[k] == nodes[k + 1]);
        }
        lemma_visible_index(nodes.drop_first(), name, scope, j - 1);
    }
}

proof fn lemma_distinct_push<A>(s: Seq<A>, x: A)
    ensures
        distinct_first(s.push(x)) == (if distinct_first(s).contains(x) { distinct_first(s) } else { distinct_first(s).push(x) }),
{
    assert(s.push(x).drop_last() =~= s);
}

/// Whether a relation is among `v`.
fn contains_relation(v: &Vec<Relation>, r: &Relation) -> (b: bool)
    ensures
        b == relation_views(v@).contains(r.view()),
{
    let mut i: usize = 0;
    while i < v.len()
        invariant
            i <= v.len(),
            forall|j: int| 0 <= j < i ==> #[trigger] v@[j].view() != r.view(),
        decreases v.len() - i,
    {
        if str_eq(v[i].from.as_str(), r.from.as_str()) && str_eq(v[i].to.as_str(), r.to.as_str())
            && str_eq(v[i].relation_type.as_str(), r.relation_type.as_str()) {
            assert(relation_views(v@)[i as int] == r.view());
            return true;
        }
        i += 1;
    }
    assert forall|j: int| 0 <= j < relation_views(v@).len() implies #[trigger] relation_views(v@)[j] != r.view() by {
        assert(relation_views(v@)[j] == v@[j].view());
    }
    false
}

impl GraphMemory {
    fn relations_touching_exec(&self, names: &Vec<String>, scope: &MemoryScope) -> (r: Vec<Relation>)
        ensures
            relation_views(r@) == relations_touching(self.edges(), string_views(names@), *scope),
    {
        let ghost nv = string_views(names@);
        let ghost pred = edge_touches(nv, *scope);
        let mut out: Vec<Relation> = Vec::new();
        let mut i: usize = 0;
        while i < self.edges.len()
            invariant
                i <= self.edges.len(),
                nv == string_views(names@),
                pred == edge_touches(nv, *scope),
                relation_views(out@) == distinct_first(self.edges().take(i as int).filter(pred).map_values(to_relation())),
            decreases self.edges.len() - i,
        {
            let e = &self.edges[i];
            proof {
                assert(self.edges().take(i + 1) =~= self.edges().take(i as int).push(e.view()));
                lemma_filter_map_push(self.edges().take(i as int), e.view(), pred, to_relation());
            }
            let hit = (contains_string(names, e.from.as_str()) || contains_string(names, e.to.as_str()))
                && is_visible(scope, &e.owner) && e.valid_until.is_none();
            if hit {
                let r = e.relation();
                proof {
                    lemma_distinct_push(self.edges().take(i as int).filter(pred).map_values(to_relation()), r.view());
                }
                if !contains_relation(&out, &r) {
                    let ghost prev = out@;
                    out.push(r);
                    assert(relation_views(out@) =~= relation_views(prev).push(r.view()));
                }
            }
            i += 1;
        }
        assert(self.edges().take(self.edges.len() as int) =~= self.edges());
        out
    }

    /// Opens the named entities: for each name, in order, its first row visible to `scope`
    /// (names with none are left out); and the distinct active relations visible to `scope`
    /// touching any of the names.
    pub fn open_nodes(&self, names: Vec<String>, scope: &MemoryScope) -> (r: KnowledgeGraph)
        ensures
            entity_views(r.entities@) == string_views(names@).filter_map(opener(self.nodes(), *scope)),
            relation_views(r.relations@) == relations_touching(self.edges(), string_views(names@), *scope),
    {
        let ghost nv = string_views(names@);
        let mut ents: Vec<Entity> = Vec::new();
        let mut i: usize = 0;
        while i < names.len()
            invariant
                i <= names.len(),
                nv == string_views(names@),
                entity_views(ents@) == nv.take(i as int).filter_map(opener(self.nodes(), *scope)),
            decreases names.len() - i,
        {
            proof {
                assert(nv.take(i + 1).drop_last() =~= nv.take(i as int));
                assert(nv.take(i + 1).last() == names@[i as int]@);
            }
            let name = &names[i];
            let mut k: usize = 0;
            while k < self.nodes.len()
                invariant
                    k <= self.nodes.len(),
                    forall|q: int| 0 <= q < k ==> !(#[trigger] self.nodes()[q].name == name@ && visible(*scope, self.nodes()[q].owner)),
                ensures
                    k <= self.nodes.len(),
                    forall|q: int| 0 <= q < k ==> !(#[trigger] self.nodes()[q].name == name@ && visible(*scope, self.nodes()[q].owner)),
                    k == self.nodes.len() || (self.nodes()[k as int].name == name@ && visible(*scope, self.nodes()[k as int].owner)),
                decreases self.nodes.len() - k,
            {
                assert(self.nodes()[k as int] == self.nodes@[k as int]@);
                if str_eq(self.nodes[k].name.as_str(), name.as_str()) && is_visible(scope, &self.nodes[k].owner) {
                    break;
                }
                k += 1;
            }
            proof {
                lemma_visible_index(self.nodes(), name@, *scope, k as int);
            }
            let ghost prev = ents@;
            if k < self.nodes.len() {
                assert(self.nodes()[k as int] == self.nodes@[k as int]@);
                let n = &self.nodes[k];
                ents.push(Entity { name: name.clone(), entity_type: n.entity_type.clone(), observations: clone_strings(&n.observations) });
                assert(entity_views(ents@) =~= entity_views(prev).push(opened(self.nodes(), name@, *scope).unwrap()));
            }
            i += 1;
        }
        assert(nv.take(names.len() as int) =~= nv);
        let relations = self.relations_touching_exec(&names, scope);
        KnowledgeGraph { entities: ents, relations }
    }

    fn row_matches(n: &NodeRow, pat: &Vec<char>) -> (b: bool)
        ensures
            b == node_matches(n.view(), pat@),
    {
        let name = crate::text::chars_of(n.name.as_str());
        let ty = crate::text::chars_of(n.entity_type.as_str());
        let js = json_of_strings(&n.observations);
        let obs = crate::text::chars_of(js.as_str());
        crate::pattern::like_chars(&name, pat) || crate::pattern::like_chars(&ty, pat) || crate::pattern::like_chars(&obs, pat)
    }

    /// Searches the graph: entities visible to `scope` whose name, type or stored
    /// observation list contains the lowercased query (`%` and `_` act as wildcards, ASCII
    /// letters match either case), and the distinct active relations visible to `scope`
    /// touching any entity that matches.
    pub fn search_nodes(&self, query: &str, scope: &MemoryScope) -> (r: KnowledgeGraph)
        ensures
            entity_views(r.entities@) == search_entities(self.nodes(), query@, *scope),
            relation_views(r.relations@) == search_relations(self.nodes(), self.edges(), query@, *scope),
    {
        let lower = query.to_lowercase();
        let mut pat: Vec<char> = Vec::new();
        pat.push('%');
        let lc = crate::text::chars_of(lower.as_str());
        let mut q: usize = 0;
        while q < lc.len()
            invariant
                q <= lc.len(),
                pat@ == seq!['%'] + lc@.take(q as int),
            decreases lc.len() - q,
        {
            pat.push(lc[q]);
            q += 1;
            assert(pat@ =~= seq!['%'] + lc@.take(q as int));
        }
        pat.push('%');
        assert(lc@.take(lc.len() as int) =~= lc@);
        assert(pat@ =~= search_pattern(query@));
        let ghost pv = pat@;
        let mut ents: Vec<Entity> = Vec::new();
        let mut matched: Vec<String> = Vec::new();
        let mut i: usize = 0;
        while i < self.nodes.len()
            invariant
                i <= self.nodes.len(),
                pv == pat@,
                pv == search_pattern(query@),
                entity_views(ents@) == self.nodes().take(i as int).filter(node_found_visible(pv, *scope)).map_values(to_entity()),
                string_views(matched@) == self.nodes().take(i as int).filter(node_found(pv)).map_values(to_name()),
            decreases self.nodes.len() - i,
        {
            let n = &self.nodes[i];
            proof {
                assert(self.nodes().take(i + 1) =~= self.nodes().take(i as int).push(n.view()));
                lemma_filter_map_push(self.nodes().take(i as int), n.view(), node_found_visible(pv, *scope), to_entity());
                lemma_filter_map_push(self.nodes().take(i as int), n.view(), node_found(pv), to_name());
            }
            if Self::row_matches(n, &pat) {
                let ghost pm = matched@;
                matched.push(n.name.clone());
                assert(string_views(matched@) =~= string_views(pm).push(n.name@));
                if is_visible(scope, &n.owner) {
                    let ghost pe = ents@;
                    ents.push(n.entity());
                    assert(entity_views(ents@) =~= entity_views(pe).push(entity_of(n.view())));
                }
            }
            i += 1;
        }
        assert(self.nodes().take(self.nodes.len() as int) =~= self.nodes());
        let relations = self.relations_touching_exec(&matched, scope);
        KnowledgeGraph { entities: ents, relations }
    }
}

/// Creating a relation that is already active under the owner changes nothing and
/// creates nothing: creating the same relation twice stores it once.
pub proof fn law_create_relation_idempotent(edges: Seq<EdgeModel>, r: RelationModel, owner: Owner, t1: Seq<char>, t2: Seq<char>)
    requires
        add_relations(edges, seq![r], owner, t1).2,
    ensures
        ({
            let (e1, _, _) = add_relations(edges, seq![r], owner, t1);
            let (e2, c2, ok2) = add_relations(e1, seq![r], owner, t2);
            e2 == e1 && c2.len() == 0 && ok2 && has_active(e1, r, owner)
        }),
{
    reveal_with_fuel(add_relations, 2);
    let s = seq![r];
    assert(s.drop_last() =~= Seq::<RelationModel>::empty());
    assert(s.last() == r);
    let (e1, c1, ok1) = add_relations(edges, s, owner, t1);
    if has_active(edges, r, owner) {
        assert(e1 == edges);
    } else {
        assert(e1 == edges.push(edge_of(r, owner, t1)));
        assert(same_relation(e1[edges.len() as int], r, owner) && active(e1[edges.len() as int]));
    }
    assert(has_active(e1, r, owner));
}

/// Creating an entity whose name is already stored under the owner changes nothing:
/// creating the same entity twice stores it once.
pub proof fn law_create_entity_idempotent(nodes: Seq<NodeModel>, e: EntityModel, owner: Owner)
    ensures
        ({
            let (n1, _) = add_entities(nodes, seq![e], owner);
            let (n2, c2) = add_entities(n1, seq![e], owner);
            n2 == n1 && c2.len() == 0 && has_node(n1, e.name, owner)
        }),
{
    reveal_with_fuel(add_entities, 2);
    let s = seq![e];
    assert(s.drop_last() =~= Seq::<EntityModel>::empty());
    assert(s.last() == e);
    let (n1, _) = add_entities(nodes, s, owner);
    if !has_node(nodes, e.name, owner) {
        assert(n1[nodes.len() as int].name == e.name && n1[nodes.len() as int].owner == owner);
    }
    assert(has_node(n1, e.name, owner));
}

/// After a relation is deleted under an owner, no version of it is active there; every
/// version is kept, with its endpoints, type, owner and start unchanged.
pub proof fn law_delete_relation_closes(edges: Seq<EdgeModel>, r: RelationModel, owner: Owner, now: Seq<char>)
    ensures
        ({
            let after = remove_relations(edges, seq![r], owner, now);
            &&& !has_active(after, r, owner)
            &&& after.len() == edges.len()
            &&& forall|i: int| 0 <= i < edges.len() ==> #[trigger] relation_of(after[i]) == relation_of(edges[i])
                && after[i].owner == edges[i].owner && after[i].valid_from == edges[i].valid_from
        }),
{
    reveal_with_fuel(remove_relations, 2);
    let s = seq![r];
    assert(s.drop_last() =~= Seq::<RelationModel>::empty());
    assert(s.last() == r);
    let after = remove_relations(edges, s, owner, now);
    assert(after == close_where(edges, relation_hit(r, owner), now));
    assert forall|i: int| 0 <= i < after.len() implies !(#[trigger] same_relation(after[i], r, owner) && active(after[i])) by {
        assert(after[i] == (if active(edges[i]) && same_relation(edges[i], r, owner) { closed_at(edges[i], now) } else { edges[i] }));
    }
}

/// Deleting an entity erases its rows under the owner and leaves no active relation
/// touching it there.
pub proof fn law_delete_entity(nodes: Seq<NodeModel>, edges: Seq<EdgeModel>, name: Seq<char>, owner: Owner, now: Seq<char>)
    ensures
        ({
            let (n, e) = remove_entities(nodes, edges, seq![name], owner, now);
            &&& !has_node(n, name, owner)
            &&& forall|i: int| 0 <= i < e.len() ==> !(#[trigger] touching_hit(name, owner)(e[i]) && active(e[i]))
            &&& e.len() == edges.len()
        }),
{
    reveal_with_fuel(remove_entities, 2);
    let s = seq![name];
    assert(s.drop_last() =~= Seq::<Seq<char>>::empty());
    assert(s.last() == name);
    let (n, e) = remove_entities(nodes, edges, s, owner, now);
    assert(n == nodes.filter(node_kept(name, owner)));
    nodes.filter_lemma(node_kept(name, owner));
    assert forall|i: int| 0 <= i < n.len() implies !(#[trigger] n[i].name == name && n[i].owner == owner) by {
        assert(node_kept(name, owner)(n[i]));
    }
    assert forall|i: int| 0 <= i < e.len() implies !(#[trigger] touching_hit(name, owner)(e[i]) && active(e[i])) by {
        assert(e[i] == (if active(edges[i]) && touching_hit(name, owner)(edges[i]) { closed_at(edges[i], now) } else { edges[i] }));
    }
}

/// No two entity rows share a name and an owner.
pub open spec fn unique_nodes(nodes: Seq<NodeModel>) -> bool {
    forall|a: int, b: int| 0 <= a < b < nodes.len() ==> !(nodes[a].name == nodes[b].name && nodes[a].owner == nodes[b].owner)
}

/// No two stored relation versions are the same version.
pub open spec fn unique_versions(edges: Seq<EdgeModel>) -> bool {
    forall|a: int, b: int| 0 <= a < b < edges.len() ==> !same_version(edges[a], edges[b])
}

/// Creating entities keeps entity keys unique: if no two rows share a name and an owner
/// before, none do after.
pub proof fn law_entity_keys_stay_unique(nodes: Seq<NodeModel>, ents: Seq<EntityModel>, owner: Owner)
    requires
        unique_nodes(nodes),
    ensures
        unique_nodes(add_entities(nodes, ents, owner).0),
    decreases ents.len(),
{
    if ents.len() > 0 {
        law_entity_keys_stay_unique(nodes, ents.drop_last(), owner);
        let n = add_entities(nodes, ents.drop_last(), owner).0;
        let e = ents.last();
        if !has_node(n, e.name, owner) {
            let n2 = n.push(node_of(e, owner));
            assert forall|a: int, b: int| 0 <= a < b < n2.len() implies !(n2[a].name == n2[b].name && n2[a].owner == n2[b].owner) by {
                if b == n.len() {
                    if n2[a].name == n2[b].name && n2[a].owner == n2[b].owner {
                        assert(n[a].name == e.name && n[a].owner == owner);
                    }
                } else {
                    assert(n2[a] == n[a] && n2[b] == n[b]);
                }
            }
        }
    }
}

/// Creating relations keeps relation versions unique: a version is never stored twice,
/// since a relation whose version starting at the same instant exists is refused.
pub proof fn law_relation_versions_stay_unique(edges: Seq<EdgeModel>, rels: Seq<RelationModel>, owner: Owner, now: Seq<char>)
    requires
        unique_versions(edges),
    ensures
        unique_versions(add_relations(edges, rels, owner, now).0),
    decreases rels.len(),
{
    if rels.len() > 0 {
        law_relation_versions_stay_unique(edges, rels.drop_last(), owner, now);
        let (e, c, ok) = add_relations(edges, rels.drop_last(), owner, now);
        let r = rels.last();
        if ok && !has_active(e, r, owner) && !has_version(e, r, owner, now) {
            let e2 = e.push(edge_of(r, owner, now));
            assert forall|a: int, b: int| 0 <= a < b < e2.len() implies !same_version(e2[a], e2[b]) by {
                if b == e.len() {
                    if same_version(e2[a], e2[b]) {
                        assert(e[a] == e2[a]);
                        assert(same_relation(e[a], r, owner) && e[a].valid_from == now);
                    }
                } else {
                    assert(e2[a] == e[a] && e2[b] == e[b]);
                }
            }
        }
    }
}

/// A relation created at instant `c` and invalidated at a later instant `d` is valid
/// exactly at the instants from `c` (included) to `d` (excluded): reading the graph as of
/// an instant before `c` or from `d` on does not show it, and as of an instant in
/// between does.
pub proof fn law_relation_lifetime(edges: Seq<EdgeModel>, r: RelationModel, owner: Owner, c: Seq<char>, d: Seq<char>, t: Seq<char>)
    requires
        !has_active(edges, r, owner),
        !has_version(edges, r, owner, c),
        seq_lt(c, d),
    ensures
        ({
            let (e1, created, ok) = add_relations(edges, seq![r], owner, c);
            let e2 = close_where(e1, relation_hit(r, owner), d);
            &&& ok && created == seq![r]
            &&& e2.len() == edges.len() + 1
            &&& e2.last() == (EdgeModel { valid_until: Some(d), ..edge_of(r, owner, c) })
            &&& (valid_at(e2.last(), t) <==> seq_le(c, t) && seq_lt(t, d))
            &&& forall|i: int| 0 <= i < edges.len() ==> #[trigger] e2[i] == edges[i]
        }),
{
    reveal_with_fuel(add_relations, 2);
    let s = seq![r];
    assert(s.drop_last() =~= Seq::<RelationModel>::empty());
    assert(s.last() == r);
    let (e1, created, ok) = add_relations(edges, s, owner, c);
    assert(e1 == edges.push(edge_of(r, owner, c)));
    assert(created =~= seq![r]);
    let e2 = close_where(e1, relation_hit(r, owner), d);
    assert forall|i: int| 0 <= i < edges.len() implies #[trigger] e2[i] == edges[i] by {
        assert(e1[i] == edges[i]);
        if active(edges[i]) && same_relation(edges[i], r, owner) {
            assert(has_active(edges, r, owner));
        }
    }
}


/// The same stored version: endpoints, type, start and owner.
pub open spec fn same_version(e: EdgeModel, l: EdgeModel) -> bool {
    e.from == l.from && e.to == l.to && e.relation_type == l.relation_type && e.valid_from == l.valid_from && e.owner == l.owner
}

/// The version closed at `now` and marked as superseded by `by`.
pub open spec fn superseded(e: EdgeModel, by: Seq<char>, now: Seq<char>) -> EdgeModel {
    EdgeModel { valid_until: Some(now), superseded_by: Some(by), ..e }
}

/// Every stored copy of version `l` closed at `now` and marked as superseded by `by`.
pub open spec fn supersede(edges: Seq<EdgeModel>, l: EdgeModel, by: Seq<char>, now: Seq<char>) -> Seq<EdgeModel> {
    edges.map_values(|e: EdgeModel| if same_version(e, l) { superseded(e, by, now) } else { e })
}

impl EdgeRow {
    fn superseded_row(&self, by: &str, now: &str) -> (r: Self)
        ensures
            r.view() == superseded(self.view(), by@, now@),
    {
        EdgeRow {
            from: self.from.clone(),
            to: self.to.clone(),
            relation_type: self.relation_type.clone(),
            owner: self.owner.duplicate(),
            valid_from: self.valid_from.clone(),
            valid_until: Some(owned(now)),
            superseded_by: Some(owned(by)),
            confidence_ppm: self.confidence_ppm,
        }
    }

    /// Whether `self` is the same stored version as `l` (see `same_version`).
    pub fn same_version_as(&self, l: &EdgeRow) -> (b: bool)
        ensures
            b == same_version(self.view(), l.view()),
    {
        str_eq(self.from.as_str(), l.from.as_str()) && str_eq(self.to.as_str(), l.to.as_str())
            && str_eq(self.relation_type.as_str(), l.relation_type.as_str())
            && str_eq(self.valid_from.as_str(), l.valid_from.as_str()) && row_eq(&self.owner, &l.owner)
    }
}

impl GraphMemory {
    /// Closes every stored copy of version `l` at `now`, marking it as superseded by `by`.
    pub fn supersede_at(&mut self, l: &EdgeRow, by: &str, now: &str)
        ensures
            final(self).edges() == supersede(old(self).edges(), l.view(), by@, now@),
            final(self).nodes() == old(self).nodes(),
    {
        let ghost old_edges = self.edges();
        let mut out: Vec<EdgeRow> = Vec::new();
        let mut i: usize = 0;
        while i < self.edges.len()
            invariant
                i <= self.edges.len(),
                self.edges() == old_edges,
                self.nodes() == old(self).nodes(),
                old_edges == old(self).edges(),
                edge_views(out@) == supersede(old_edges, l.view(), by@, now@).take(i as int),
            decreases self.edges.len() - i,
        {
            let e = &self.edges[i];
            assert(old_edges[i as int] == e.view());
            let ghost prev = edge_views(out@);
            let ghost sup = supersede(old_edges, l.view(), by@, now@);
            if e.same_version_as(l) {
                out.push(e.superseded_row(by, now));
            } else {
                out.push(e.duplicate());
            }
            proof {
                assert(edge_views(out@) =~= prev.push(sup[i as int]));
                assert(sup.take(i + 1) =~= sup.take(i as int).push(sup[i as int]));
            }
            i += 1;
        }
        assert(supersede(old_edges, l.view(), by@, now@).take(self.edges.len() as int) =~= supersede(old_edges, l.view(), by@, now@));
        self.edges = out;
    }
}

/// The active versions under exactly `owner` from the relation's source to `old_to` with
/// its type.
pub open spec fn retire_hit(rel: RelationModel, old_to: Seq<char>, owner: Owner) -> spec_fn(EdgeModel) -> bool {
    |e: EdgeModel| e.from == rel.from && e.to == old_to && e.relation_type == rel.relation_type && active(e) && e.owner == owner
}

/// Those versions closed at `now`, superseded by the new target.
pub open spec fn retire(edges: Seq<EdgeModel>, rel: RelationModel, old_to: Seq<char>, owner: Owner, now: Seq<char>) -> Seq<EdgeModel> {
    edges.map_values(|e: EdgeModel| if retire_hit(rel, old_to, owner)(e) { superseded(e, rel.to, now) } else { e })
}


impl GraphMemory {
    /// Retires the active versions under exactly `owner` from the relation's source to
    /// `old_to` with its type (see `retire`).
    pub fn retire_at(&mut self, rel: &Relation, old_to: &String, owner: &RowScope, now: &str)
        ensures
            final(self).edges() == retire(old(self).edges(), rel.view(), old_to@, owner.view(), now@),
            final(self).nodes() == old(self).nodes(),
    {
        let ghost old_edges = self.edges();
        let ghost target = retire(old_edges, rel.view(), old_to@, owner.view(), now@);
        let mut out: Vec<EdgeRow> = Vec::new();
        let mut i: usize = 0;
        while i < self.edges.len()
            invariant
                i <= self.edges.len(),
                self.edges() == old_edges,
                self.nodes() == old(self).nodes(),
                old_edges == old(self).edges(),
                target == retire(old_edges, rel.view(), old_to@, owner.view(), now@),
                edge_views(out@) == target.take(i as int),
            decreases self.edges.len() - i,
        {
            let e = &self.edges[i];
            assert(old_edges[i as int] == e.view());
            let ghost prev = edge_views(out@);
            if str_eq(e.from.as_str(), rel.from.as_str()) && str_eq(e.to.as_str(), old_to.as_str())
                && str_eq(e.relation_type.as_str(), rel.relation_type.as_str()) && e.valid_until.is_none() && row_eq(&e.owner, owner) {
                out.push(e.superseded_row(rel.to.as_str(), now));
            } else {
                out.push(e.duplicate());
            }
            proof {
                assert(edge_views(out@) =~= prev.push(target[i as int]));
                assert(target.take(i + 1) =~= target.take(i as int).push(target[i as int]));
            }
            i += 1;
        }
        assert(target.take(self.edges.len() as int) =~= target);
        self.edges = out;
    }
}


/// The visible selections are no larger than the stored rows.
pub proof fn lemma_visible_sizes(nodes: Seq<NodeModel>, edges: Seq<EdgeModel>, scope: MemoryScope)
    ensures
        visible_entities(nodes, scope).len() <= nodes.len(),
        visible_relations(edges, scope).len() <= edges.len(),
{
    nodes.lemma_filter_len(node_visible(scope));
    edges.lemma_filter_len(edge_live(scope));
}

/// What a filter keeps: elements of the sequence that pass, and every element that passes.
pub proof fn lemma_filter_members<A>(s: Seq<A>, f: spec_fn(A) -> bool)
    ensures
        forall|i: int| 0 <= i < s.filter(f).len() ==> s.contains(#[trigger] s.filter(f)[i]) && f(s.filter(f)[i]),
        forall|i: int| 0 <= i < s.len() && f(#[trigger] s[i]) ==> s.filter(f).contains(s[i]),
    decreases s.len(),
{
    reveal(Seq::filter);
    if s.len() > 0 {
        let d = s.drop_last();
        lemma_filter_members(d, f);
        let g = d.filter(f);
        assert(s.filter(f) == if f(s.last()) { g.push(s.last()) } else { g });
        assert forall|i: int| 0 <= i < s.filter(f).len() implies s.contains(#[trigger] s.filter(f)[i]) && f(s.filter(f)[i]) by {
            if i < g.len() {
                assert(s.filter(f)[i] == g[i]);
                let j = choose|j: int| 0 <= j < d.len() && d[j] == g[i];
                assert(s[j] == g[i]);
            } else {
                assert(s[s.len() - 1] == s.last());
            }
        }
        assert forall|i: int| 0 <= i < s.len() && f(#[trigger] s[i]) implies s.filter(f).contains(s[i]) by {
            if i < d.len() {
                assert(d[i] == s[i]);
                assert(g.contains(s[i]));
                let k = choose|k: int| 0 <= k < g.len() && g[k] == s[i];
                assert(s.filter(f)[k] == s[i]);
            } else {
                assert(s.filter(f)[g.len() as int] == s[i]);
            }
        }
    }
}

proof fn lemma_insert_by_start_members(sorted: Seq<EdgeModel>, x: EdgeModel)
    ensures
        forall|y: EdgeModel| #[trigger] insert_by_start(sorted, x).contains(y) <==> sorted.contains(y) || y == x,
    decreases sorted.len(),
{
    let r = insert_by_start(sorted, x);
    if sorted.len() == 0 {
        assert forall|y: EdgeModel| #[trigger] r.contains(y) <==> sorted.contains(y) || y == x by {
            if y == x {
                assert(r[0] == x);
            }
        }
    } else if seq_le(sorted.last().valid_from, x.valid_from) {
        assert forall|y: EdgeModel| #[trigger] r.contains(y) <==> sorted.contains(y) || y == x by {
            if r.contains(y) {
                let k = choose|k: int| 0 <= k < r.len() && r[k] == y;
                if k < sorted.len() {
                    assert(sorted[k] == y);
                }
            }
            if sorted.contains(y) {
                let k = choose|k: int| 0 <= k < sorted.len() && sorted[k] == y;
                assert(r[k] == y);
            }
            if y == x {
                assert(r[sorted.len() as int] == x);
            }
        }
    } else {
        let d = sorted.drop_last();
        lemma_insert_by_start_members(d, x);
        let q = insert_by_start(d, x);
        assert forall|y: EdgeModel| #[trigger] r.contains(y) <==> sorted.contains(y) || y == x by {
            if r.contains(y) {
                let k = choose|k: int| 0 <= k < r.len() && r[k] == y;
                if k < q.len() {
                    assert(q[k] == y);
                    assert(q.contains(y));
                    if d.contains(y) {
                        let j = choose|j: int| 0 <= j < d.len() && d[j] == y;
                        assert(sorted[j] == y);
                    }
                } else {
                    assert(sorted[sorted.len() - 1] == y);
                }
            }
            if sorted.contains(y) {
                let k = choose|k: int| 0 <= k < sorted.len() && sorted[k] == y;
                if k < d.len() {
                    assert(d[k] == y);
                    assert(q.contains(y));
                    let j = choose|j: int| 0 <= j < q.len() && q[j] == y;
                    assert(r[j] == y);
                } else {
                    assert(r[q.len() as int] == y);
                }
            }
            if y == x {
                assert(q.contains(x));
                let j = choose|j: int| 0 <= j < q.len() && q[j] == x;
                assert(r[j] == x);
            }
        }
    }
}

/// Ordering by start keeps exactly the versions it was given.
proof fn lemma_sort_by_start_members(s: Seq<EdgeModel>)
    ensures
        forall|y: EdgeModel| #[trigger] sort_by_start(s).contains(y) <==> s.contains(y),
    decreases s.len(),
{
    if s.len() > 0 {
        let d = s.drop_last();
        lemma_sort_by_start_members(d);
        lemma_insert_by_start_members(sort_by_start(d), s.last());
        assert forall|y: EdgeModel| #[trigger] sort_by_start(s).contains(y) <==> s.contains(y) by {
            if d.contains(y) {
                let k = choose|k: int| 0 <= k < d.len() && d[k] == y;
                assert(s[k] == y);
            }
            if s.contains(y) {
                let k = choose|k: int| 0 <= k < s.len() && s[k] == y;
                if k < d.len() {
                    assert(d[k] == y);
                } else {
                    assert(y == s.last());
                }
            }
            if y == s.last() {
                assert(s[s.len() - 1] == y);
            }
        }
    }
}

/// The history of an entity holds exactly the stored versions visible to the scope (of
/// the requested type, when one is given) that have the entity as their source or as
/// their target.
pub proof fn law_history_touches(edges: Seq<EdgeModel>, name: Seq<char>, rel: Option<Seq<char>>, scope: MemoryScope, e: EdgeModel)
    ensures
        sort_by_start(edges.filter(history_hit(name, rel, scope))).contains(e) <==> {
            &&& edges.contains(e)
            &&& e.from == name || e.to == name
            &&& rel matches Some(r) ==> e.relation_type == r
            &&& visible(scope, e.owner)
        },
{
    let h = history_hit(name, rel, scope);
    let fs = edges.filter(h);
    lemma_sort_by_start_members(fs);
    lemma_filter_members(edges, h);
    if fs.contains(e) {
        let k = choose|k: int| 0 <= k < fs.len() && fs[k] == e;
        assert(h(fs[k]));
    }
    if edges.contains(e) && (e.from == name || e.to == name) && (rel matches Some(r) ==> e.relation_type == r) && visible(scope, e.owner) {
        let k = choose|k: int| 0 <= k < edges.len() && edges[k] == e;
        assert(h(edges[k]));
    }
}

/// The lexicographic order of character sequences is transitive.
pub proof fn lemma_seq_lt_trans(a: Seq<char>, b: Seq<char>, c: Seq<char>)
    requires
        seq_lt(a, b),
        seq_lt(b, c),
    ensures
        seq_lt(a, c),
    decreases a.len(),
{
    if a.len() > 0 && b.len() > 0 && c.len() > 0 && a[0] == b[0] && b[0] == c[0] {
        lemma_seq_lt_trans(a.drop_first(), b.drop_first(), c.drop_first());
    }
}

pub proof fn lemma_seq_le_trans(a: Seq<char>, b: Seq<char>, c: Seq<char>)
    requires
        seq_le(a, b),
        seq_le(b, c),
    ensures
        seq_le(a, c),
{
    if a != b && b != c {
        lemma_seq_lt_trans(a, b, c);
    }
}

pub open spec fn by_start(s: Seq<EdgeModel>) -> bool {
    forall|i: int, j: int| 0 <= i < j < s.len() ==> seq_le(s[i].valid_from, s[j].valid_from)
}

proof fn lemma_insert_by_start_sorted(sorted: Seq<EdgeModel>, x: EdgeModel)
    requires
        by_start(sorted),
    ensures
        by_start(insert_by_start(sorted, x)),
    decreases sorted.len(),
{
    let r = insert_by_start(sorted, x);
    if sorted.len() == 0 {
    } else if seq_le(sorted.last().valid_from, x.valid_from) {
        assert forall|i: int, j: int| 0 <= i < j < r.len() implies seq_le(r[i].valid_from, r[j].valid_from) by {
            if j == sorted.len() {
                if i < sorted.len() - 1 {
                    lemma_seq_le_trans(sorted[i].valid_from, sorted.last().valid_from, x.valid_from);
                }
            }
        }
    } else {
        let d = sorted.drop_last();
        let l = sorted.last();
        assert(by_start(d));
        lemma_insert_by_start_sorted(d, x);
        lemma_insert_by_start_members(d, x);
        let q = insert_by_start(d, x);
        lemma_seq_lt_total(l.valid_from, x.valid_from);
        assert forall|i: int, j: int| 0 <= i < j < r.len() implies seq_le(r[i].valid_from, r[j].valid_from) by {
            if j == q.len() {
                assert(r[j] == l);
                assert(r[i] == q[i]);
                assert(q.contains(q[i]));
                if q[i] != x {
                    assert(d.contains(q[i]));
                    let k = choose|k: int| 0 <= k < d.len() && d[k] == q[i];
                    assert(sorted[k] == d[k]);
                    assert(sorted[sorted.len() - 1] == l);
                }
            } else {
                assert(r[i] == q[i] && r[j] == q[j]);
            }
        }
    }
}

/// The history of an entity comes ordered by start instant.
pub proof fn law_history_by_start(edges: Seq<EdgeModel>, name: Seq<char>, rel: Option<Seq<char>>, scope: MemoryScope)
    ensures
        forall|i: int, j: int| 0 <= i < j < sort_by_start(edges.filter(history_hit(name, rel, scope))).len() ==>
            seq_le(sort_by_start(edges.filter(history_hit(name, rel, scope)))[i].valid_from,
                sort_by_start(edges.filter(history_hit(name, rel, scope)))[j].valid_from),
{
    lemma_sort_sorted(edges.filter(history_hit(name, rel, scope)));
}

proof fn lemma_sort_sorted(s: Seq<EdgeModel>)
    ensures
        by_start(sort_by_start(s)),
    decreases s.len(),
{
    if s.len() > 0 {
        lemma_sort_sorted(s.drop_last());
        lemma_insert_by_start_sorted(sort_by_start(s.drop_last()), s.last());
    }
}

} // verus!
