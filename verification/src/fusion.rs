//! Proactive recall: what the semantic, graph and episodic layers hold about the current
//! context, fused into one list ranked by confidence.  Confidences are in millionths.
use vstd::prelude::*;
use crate::text::{unicode_lowercase, trim, contains_seq, contains_str, trim_str, owned};
use crate::recall::{keywords_of, extract_keywords, string_views};
use crate::graph::{GraphMemory, KnowledgeGraph, Entity, Relation, EntityModel, RelationModel, entity_views, relation_views, search_entities, search_relations, lemma_filter_push, clone_strings};
use crate::episodic::{ReflectionItem, ReflectionModel, EpisodicMemory, reflection_found, newest_first};
use crate::graph::Owner;
use crate::scope::MemoryScope;

verus! {

/// A metadata value of a recalled item.
#[derive(Debug, Clone)]
pub enum MetaValue {
    Text(String),
    Number(i64),
    Ppm(u32),
    List(Vec<String>),
}

pub enum MetaModel {
    Text(Seq<char>),
    Number(int),
    Ppm(int),
    List(Seq<Seq<char>>),
}

impl MetaValue {
    pub open spec fn view(&self) -> MetaModel {
        match self {
            MetaValue::Text(s) => MetaModel::Text(s@),
            MetaValue::Number(n) => MetaModel::Number(*n as int),
            MetaValue::Ppm(n) => MetaModel::Ppm(*n as int),
            MetaValue::List(v) => MetaModel::List(string_views(v@)),
        }
    }
}

pub type Meta = Seq<(Seq<char>, MetaModel)>;

/// One recalled item: the layers it came from (comma separated), its text, its
/// confidence in millionths, and metadata under distinct keys.
#[derive(Debug, Clone)]
pub struct RecallItem {
    pub layer: String,
    pub content: String,
    pub confidence_ppm: u32,
    pub metadata: Vec<(String, MetaValue)>,
}

pub struct ItemModel {
    pub layer: Seq<char>,
    pub content: Seq<char>,
    pub confidence: int,
    pub metadata: Meta,
}

pub open spec fn meta_views(m: Seq<(String, MetaValue)>) -> Meta {
    m.map_values(|kv: (String, MetaValue)| (kv.0@, kv.1.view()))
}

impl RecallItem {
    pub open spec fn view(&self) -> ItemModel {
        ItemModel {
            layer: self.layer@,
            content: self.content@,
            confidence: self.confidence_ppm as int,
            metadata: meta_views(self.metadata@),
        }
    }
}

pub open spec fn item_views(s: Seq<RecallItem>) -> Seq<ItemModel> {
    s.map_values(|x: RecallItem| x.view())
}

/// A fact that semantic search returned for the context; `similarity_ppm` and
/// `importance_ppm` are in millionths.
#[derive(Debug, Clone)]
pub struct SemanticHit {
    pub node_id: String,
    pub raw_text: String,
    pub similarity_ppm: u32,
    pub timestamp: String,
    pub importance_ppm: u32,
}

pub struct HitModel {
    pub node_id: Seq<char>,
    pub raw_text: Seq<char>,
    pub similarity: int,
    pub timestamp: Seq<char>,
    pub importance: int,
}

impl SemanticHit {
    pub open spec fn view(&self) -> HitModel {
        HitModel {
            node_id: self.node_id@,
            raw_text: self.raw_text@,
            similarity: self.similarity_ppm as int,
            timestamp: self.timestamp@,
            importance: self.importance_ppm as int,
        }
    }
}

/// Full confidence.
pub open spec fn full() -> int {
    1_000_000
}

/// A confidence held to at most full confidence.
pub open spec fn capped(x: int) -> int {
    if x > full() { full() } else { x }
}

/// A base confidence raised by a tenth for each matched keyword, capped; the base alone
/// when there are no keywords.
pub open spec fn keyword_confidence(base: int, kws: Seq<Seq<char>>, matched: int) -> int {
    if kws.len() == 0 { base } else { capped(base + 100_000 * matched) }
}

pub open spec fn lower(s: Seq<char>) -> Seq<char> {
    unicode_lowercase(s)
}

/// The strings of `v` joined by `sep`.
pub open spec fn join(v: Seq<Seq<char>>, sep: Seq<char>) -> Seq<char>
    decreases v.len(),
{
    if v.len() == 0 {
        Seq::empty()
    } else if v.len() == 1 {
        v[0]
    } else {
        join(v.drop_last(), sep) + sep + v.last()
    }
}

pub open spec fn text_or(o: Option<Seq<char>>, d: Seq<char>) -> Seq<char> {
    match o {
        Some(s) => s,
        None => d,
    }
}

/// The item for a semantic hit.
pub open spec fn semantic_item(h: HitModel) -> ItemModel {
    ItemModel {
        layer: "semantic"@,
        content: h.raw_text,
        confidence: capped(h.similarity),
        metadata: seq![("nodeId"@, MetaModel::Text(h.node_id)), ("timestamp"@, MetaModel::Text(h.timestamp)), ("importance"@, MetaModel::Ppm(h.importance))],
    }
}

/// A keyword is found when it occurs in one of the texts of `hay`.
pub open spec fn found_in(hay: Seq<Seq<char>>, kw: Seq<char>) -> bool {
    exists|i: int| 0 <= i < hay.len() && contains_seq(#[trigger] hay[i], kw)
}

pub open spec fn keyword_hits(hay: Seq<Seq<char>>) -> spec_fn(Seq<char>) -> bool {
    |k: Seq<char>| found_in(hay, k)
}

/// The texts of an entity that keywords are looked for in: its name, its type and each
/// observation, lowercased.
pub open spec fn entity_hay(e: EntityModel) -> Seq<Seq<char>> {
    seq![lower(e.name), lower(e.entity_type)] + e.observations.map_values(|o: Seq<char>| lower(o))
}

pub open spec fn entity_content(e: EntityModel) -> Seq<char> {
    if e.observations.len() == 0 {
        "Entity: "@ + e.name + " ("@ + e.entity_type + ")"@
    } else {
        "Entity: "@ + e.name + " ("@ + e.entity_type + ") - Observations: "@ + join(e.observations, ", "@)
    }
}

/// The item for an entity found in the graph.
pub open spec fn entity_item(e: EntityModel, kws: Seq<Seq<char>>) -> ItemModel {
    ItemModel {
        layer: "graph"@,
        content: entity_content(e),
        confidence: keyword_confidence(600_000, kws, kws.filter(keyword_hits(entity_hay(e))).len() as int),
        metadata: seq![("name"@, MetaModel::Text(e.name)), ("entityType"@, MetaModel::Text(e.entity_type)), ("observations"@, MetaModel::List(e.observations))],
    }
}

/// The texts of a relation that keywords are looked for in: its endpoints and its type,
/// lowercased.
pub open spec fn relation_hay(r: RelationModel) -> Seq<Seq<char>> {
    seq![lower(r.from), lower(r.to), lower(r.relation_type)]
}

/// The item for a relation found in the graph.
pub open spec fn relation_item(r: RelationModel, kws: Seq<Seq<char>>) -> ItemModel {
    ItemModel {
        layer: "graph"@,
        content: "Relation: "@ + r.from + " - "@ + r.relation_type + " - "@ + r.to,
        confidence: keyword_confidence(500_000, kws, kws.filter(keyword_hits(relation_hay(r))).len() as int),
        metadata: seq![("from"@, MetaModel::Text(r.from)), ("to"@, MetaModel::Text(r.to)), ("relationType"@, MetaModel::Text(r.relation_type))],
    }
}

/// The lowercased text of a reflection that keywords are looked for in.
pub open spec fn reflection_text(r: ReflectionModel) -> Seq<char> {
    lower(r.task_description + " "@ + r.reflection + " "@ + text_or(r.root_cause, Seq::empty()) + " "@ + text_or(r.solution_applied, Seq::empty()))
}

pub open spec fn reflection_content(r: ReflectionModel) -> Seq<char> {
    "Reflection on '"@ + r.task_description + "' (Status: "@ + r.status + "): "@ + r.reflection
        + " | Root Cause: "@ + text_or(r.root_cause, "None"@) + " | Solution: "@ + text_or(r.solution_applied, "None"@)
}

/// The item for a reflection found in episodic memory.
pub open spec fn reflection_item(r: ReflectionModel, kws: Seq<Seq<char>>) -> ItemModel {
    ItemModel {
        layer: "episodic"@,
        content: reflection_content(r),
        confidence: keyword_confidence(600_000, kws, kws.filter(keyword_hits(seq![reflection_text(r)])).len() as int),
        metadata: seq![("id"@, MetaModel::Text(r.id)), ("taskDescription"@, MetaModel::Text(r.task_description)),
            ("status"@, MetaModel::Text(r.status)), ("attemptNumber"@, MetaModel::Number(r.attempt_number)), ("createdAt"@, MetaModel::Text(r.created_at))],
    }
}

fn lower_exec(s: &str) -> (r: String)
    ensures
        r@ == lower(s@),
{
    s.to_lowercase()
}

fn text(s: &String) -> (r: MetaValue)
    ensures
        r.view() == MetaModel::Text(s@),
{
    MetaValue::Text(s.clone())
}

fn key(s: &str) -> (r: String)
    ensures
        r@ == s@,
{
    owned(s)
}

/// `v` joined by `sep`.
pub fn join_strings(v: &Vec<String>, sep: &str) -> (r: String)
    ensures
        r@ == join(string_views(v@), sep@),
{
    let mut r = String::new();
    let mut i: usize = 0;
    while i < v.len()
        invariant
            i <= v.len(),
            r@ == join(string_views(v@).take(i as int), sep@),
        decreases v.len() - i,
    {
        let ghost before = r@;
        proof {
            let t = string_views(v@).take(i + 1);
            assert(t.drop_last() =~= string_views(v@).take(i as int));
            assert(t.last() == v@[i as int]@);
        }
        if i > 0 {
            r.append(sep);
        }
        r.append(v[i].as_str());
        proof {
            if i == 0 {
                assert(before =~= Seq::<char>::empty());
                assert(r@ =~= v@[0]@);
            }
        }
        i += 1;
    }
    assert(string_views(v@).take(v.len() as int) =~= string_views(v@));
    r
}

fn opt_text_or(o: &Option<String>, d: &str) -> (r: String)
    ensures
        r@ == text_or(crate::graph::opt_view(*o), d@),
{
    match o {
        Some(s) => s.clone(),
        None => owned(d),
    }
}

/// The number of keywords found in the texts of `hay`.
fn count_keywords(kws: &Vec<String>, hay: &Vec<String>) -> (n: u64)
    ensures
        n == string_views(kws@).filter(keyword_hits(string_views(hay@))).len(),
        n <= kws.len(),
{
    let ghost p = keyword_hits(string_views(hay@));
    let ghost ks = string_views(kws@);
    let mut n: u64 = 0;
    let mut i: usize = 0;
    while i < kws.len()
        invariant
            i <= kws.len(),
            ks == string_views(kws@),
            p == keyword_hits(string_views(hay@)),
            n == ks.take(i as int).filter(p).len(),
            n <= i,
        decreases kws.len() - i,
    {
        let mut found = false;
        let mut j: usize = 0;
        while j < hay.len()
            invariant
                j <= hay.len(),
                found == exists|m: int| 0 <= m < j && contains_seq(#[trigger] string_views(hay@)[m], kws@[i as int]@),
                i < kws.len(),
            decreases hay.len() - j,
        {
            assert(string_views(hay@)[j as int] == hay@[j as int]@);
            if contains_str(hay[j].as_str(), kws[i].as_str()) {
                found = true;
            }
            j += 1;
        }
        proof {
            assert(ks[i as int] == kws@[i as int]@);
            assert(found == found_in(string_views(hay@), ks[i as int]));
            assert(p(ks[i as int]) == found);
            assert(ks.take(i + 1) =~= ks.take(i as int).push(ks[i as int]));
            lemma_filter_push(ks.take(i as int), ks[i as int], p);
            ks.take(i as int).lemma_filter_len(p);
        }
        if found {
            n += 1;
        }
        i += 1;
    }
    assert(ks.take(kws.len() as int) =~= ks);
    n
}

/// A base confidence raised by a tenth per matched keyword, capped.
fn raised(base: u32, kws: &Vec<String>, matched: u64) -> (r: u32)
    requires
        base <= 1_000_000,
    ensures
        r == keyword_confidence(base as int, string_views(kws@), matched as int),
{
    if kws.len() == 0 {
        base
    } else if matched >= 10 {
        1_000_000
    } else {
        let c: u64 = base as u64 + 100_000 * matched;
        if c > 1_000_000 { 1_000_000 } else { c as u32 }
    }
}


fn semantic_item_exec(h: &SemanticHit) -> (r: RecallItem)
    ensures
        r.view() == semantic_item(h.view()),
{
    let c: u32 = if h.similarity_ppm > 1_000_000 { 1_000_000 } else { h.similarity_ppm };
    let metadata = vec![
        (key("nodeId"), text(&h.node_id)),
        (key("timestamp"), text(&h.timestamp)),
        (key("importance"), MetaValue::Ppm(h.importance_ppm)),
    ];
    let r = RecallItem { layer: key("semantic"), content: h.raw_text.clone(), confidence_ppm: c, metadata };
    assert(meta_views(r.metadata@) =~= semantic_item(h.view()).metadata);
    r
}

fn lowered_all(v: &Vec<String>) -> (r: Vec<String>)
    ensures
        string_views(r@) == string_views(v@).map_values(|o: Seq<char>| lower(o)),
{
    let mut r: Vec<String> = Vec::new();
    let mut i: usize = 0;
    while i < v.len()
        invariant
            i <= v.len(),
            string_views(r@) == string_views(v@).take(i as int).map_values(|o: Seq<char>| lower(o)),
        decreases v.len() - i,
    {
        let ghost before = r@;
        r.push(lower_exec(v[i].as_str()));
        proof {
            assert(string_views(r@) =~= string_views(before).push(lower(v@[i as int]@)));
            assert(string_views(v@).take(i + 1) =~= string_views(v@).take(i as int).push(v@[i as int]@));
            assert(string_views(v@).take(i + 1).map_values(|o: Seq<char>| lower(o))
                =~= string_views(v@).take(i as int).map_values(|o: Seq<char>| lower(o)).push(lower(v@[i as int]@)));
        }
        i += 1;
    }
    assert(string_views(v@).take(v.len() as int) =~= string_views(v@));
    r
}

fn entity_item_exec(e: &Entity, kws: &Vec<String>) -> (r: RecallItem)
    ensures
        r.view() == entity_item(e.view(), string_views(kws@)),
{
    let mut hay: Vec<String> = vec![lower_exec(e.name.as_str()), lower_exec(e.entity_type.as_str())];
    let mut obs = lowered_all(&e.observations);
    let ghost h0 = string_views(hay@);
    let ghost o0 = string_views(obs@);
    hay.append(&mut obs);
    assert(string_views(hay@) =~= h0 + o0);
    assert(string_views(hay@) =~= entity_hay(e.view()));
    let n = count_keywords(kws, &hay);
    let confidence_ppm = raised(600_000, kws, n);
    let mut content = owned("Entity: ");
    content.append(e.name.as_str());
    content.append(" (");
    content.append(e.entity_type.as_str());
    if e.observations.len() == 0 {
        content.append(")");
    } else {
        content.append(") - Observations: ");
        let j = join_strings(&e.observations, ", ");
        content.append(j.as_str());
    }
    let metadata = vec![
        (key("name"), text(&e.name)),
        (key("entityType"), text(&e.entity_type)),
        (key("observations"), MetaValue::List(clone_strings(&e.observations))),
    ];
    let r = RecallItem { layer: key("graph"), content, confidence_ppm, metadata };
    assert(meta_views(r.metadata@) =~= entity_item(e.view(), string_views(kws@)).metadata);
    assert(r.content@ =~= entity_content(e.view()));
    r
}

fn relation_item_exec(x: &Relation, kws: &Vec<String>) -> (r: RecallItem)
    ensures
        r.view() == relation_item(x.view(), string_views(kws@)),
{
    let hay: Vec<String> = vec![lower_exec(x.from.as_str()), lower_exec(x.to.as_str()), lower_exec(x.relation_type.as_str())];
    assert(string_views(hay@) =~= relation_hay(x.view()));
    let n = count_keywords(kws, &hay);
    let confidence_ppm = raised(500_000, kws, n);
    let mut content = owned("Relation: ");
    content.append(x.from.as_str());
    content.append(" - ");
    content.append(x.relation_type.as_str());
    content.append(" - ");
    content.append(x.to.as_str());
    let metadata = vec![
        (key("from"), text(&x.from)),
        (key("to"), text(&x.to)),
        (key("relationType"), text(&x.relation_type)),
    ];
    let r = RecallItem { layer: key("graph"), content, confidence_ppm, metadata };
    assert(meta_views(r.metadata@) =~= relation_item(x.view(), string_views(kws@)).metadata);
    assert(r.content@ =~= relation_item(x.view(), string_views(kws@)).content);
    r
}

fn reflection_item_exec(x: &ReflectionItem, kws: &Vec<String>) -> (r: RecallItem)
    ensures
        r.view() == reflection_item(x.view(), string_views(kws@)),
{
    let mut t = x.task_description.clone();
    t.append(" ");
    t.append(x.reflection.as_str());
    t.append(" ");
    let rc0 = opt_text_or(&x.root_cause, "");
    t.append(rc0.as_str());
    t.append(" ");
    let so0 = opt_text_or(&x.solution_applied, "");
    t.append(so0.as_str());
    assert(t@ =~= x.view().task_description + " "@ + x.view().reflection + " "@ + text_or(x.view().root_cause, Seq::empty()) + " "@ + text_or(x.view().solution_applied, Seq::empty())) by {
        reveal_strlit("");
    }
    let hay: Vec<String> = vec![lower_exec(t.as_str())];
    assert(string_views(hay@) =~= seq![reflection_text(x.view())]);
    let n = count_keywords(kws, &hay);
    let confidence_ppm = raised(600_000, kws, n);
    let mut content = owned("Reflection on '");
    content.append(x.task_description.as_str());
    content.append("' (Status: ");
    content.append(x.status.as_str());
    content.append("): ");
    content.append(x.reflection.as_str());
    content.append(" | Root Cause: ");
    let rc = opt_text_or(&x.root_cause, "None");
    content.append(rc.as_str());
    content.append(" | Solution: ");
    let so = opt_text_or(&x.solution_applied, "None");
    content.append(so.as_str());
    let metadata = vec![
        (key("id"), text(&x.id)),
        (key("taskDescription"), text(&x.task_description)),
        (key("status"), text(&x.status)),
        (key("attemptNumber"), MetaValue::Number(x.attempt_number)),
        (key("createdAt"), text(&x.created_at)),
    ];
    let r = RecallItem { layer: key("episodic"), content, confidence_ppm, metadata };
    assert(meta_views(r.metadata@) =~= reflection_item(x.view(), string_views(kws@)).metadata);
    assert(r.content@ =~= reflection_content(x.view()));
    r
}


/// The first index of `s` whose element satisfies `f`, or -1.
pub open spec fn first_index<A>(s: Seq<A>, f: spec_fn(A) -> bool) -> int
    decreases s.len(),
{
    if s.len() == 0 {
        -1
    } else if f(s[0]) {
        0
    } else {
        let r = first_index(s.drop_first(), f);
        if r < 0 { -1 } else { r + 1 }
    }
}

pub proof fn lemma_first_index<A>(s: Seq<A>, f: spec_fn(A) -> bool, j: int)
    requires
        0 <= j <= s.len(),
        forall|k: int| 0 <= k < j ==> !f(#[trigger] s[k]),
    ensures
        j < s.len() && f(s[j]) ==> first_index(s, f) == j,
        j == s.len() ==> first_index(s, f) == -1,
    decreases j,
{
    if j > 0 {
        assert forall|k: int| 0 <= k < j - 1 implies !f(#[trigger] s.drop_first()[k]) by {
            assert(s.drop_first()[k] == s[k + 1]);
        }
        lemma_first_index(s.drop_first(), f, j - 1);
    }
}

pub open spec fn same_name(n: Seq<char>) -> spec_fn(EntityModel) -> bool {
    |x: EntityModel| x.name == n
}

/// Entities by name, as a map that a later entry of a name overwrites: each name once,
/// where it first appeared, with the last entity of that name.
pub open spec fn keyed_entities(s: Seq<EntityModel>) -> Seq<EntityModel>
    decreases s.len(),
{
    if s.len() == 0 {
        Seq::empty()
    } else {
        let p = keyed_entities(s.drop_last());
        let i = first_index(p, same_name(s.last().name));
        if i < 0 { p.push(s.last()) } else { p.update(i, s.last()) }
    }
}

pub open spec fn same_id(n: Seq<char>) -> spec_fn(ReflectionModel) -> bool {
    |x: ReflectionModel| x.id == n
}

/// Reflections by id, as a map that a later entry of an id overwrites.
pub open spec fn keyed_reflections(s: Seq<ReflectionModel>) -> Seq<ReflectionModel>
    decreases s.len(),
{
    if s.len() == 0 {
        Seq::empty()
    } else {
        let p = keyed_reflections(s.drop_last());
        let i = first_index(p, same_id(s.last().id));
        if i < 0 { p.push(s.last()) } else { p.update(i, s.last()) }
    }
}

/// Relations as a set: each once, where it first appeared.
pub open spec fn distinct_relations(s: Seq<RelationModel>) -> Seq<RelationModel>
    decreases s.len(),
{
    if s.len() == 0 {
        Seq::empty()
    } else {
        let p = distinct_relations(s.drop_last());
        if p.contains(s.last()) { p } else { p.push(s.last()) }
    }
}

/// Whether a context is blank once trimmed.
pub open spec fn blank(ctx: Seq<char>) -> bool {
    trim(ctx).len() == 0
}

/// The queries put to the graph: the context itself unless blank, then each keyword.
pub open spec fn graph_queries(ctx: Seq<char>) -> Seq<Seq<char>> {
    (if blank(ctx) { Seq::empty() } else { seq![ctx] }) + keywords_of(ctx)
}

pub open spec fn found_entities(nodes: Seq<crate::graph::NodeModel>, qs: Seq<Seq<char>>, scope: MemoryScope) -> Seq<EntityModel>
    decreases qs.len(),
{
    if qs.len() == 0 {
        Seq::empty()
    } else {
        found_entities(nodes, qs.drop_last(), scope) + search_entities(nodes, qs.last(), scope)
    }
}

pub open spec fn found_relations(nodes: Seq<crate::graph::NodeModel>, edges: Seq<crate::graph::EdgeModel>, qs: Seq<Seq<char>>, scope: MemoryScope) -> Seq<RelationModel>
    decreases qs.len(),
{
    if qs.len() == 0 {
        Seq::empty()
    } else {
        found_relations(nodes, edges, qs.drop_last(), scope) + search_relations(nodes, edges, qs.last(), scope)
    }
}

/// The reflections that episodic search finds for the queries, query by query.
pub open spec fn found_reflections(rows: Seq<(ReflectionModel, Owner)>, qs: Seq<Seq<char>>, scope: MemoryScope) -> Seq<ReflectionModel>
    decreases qs.len(),
{
    if qs.len() == 0 {
        Seq::empty()
    } else {
        found_reflections(rows, qs.drop_last(), scope)
            + newest_first(rows.filter(reflection_found(qs.last(), scope)).map_values(|x: (ReflectionModel, Owner)| x.0))
    }
}

/// The items gathered before fusing: semantic hits (unless the context is blank), and the
/// entities, relations and reflections that graph and episodic search find for the
/// queries (the context unless blank, then each keyword).
pub open spec fn raw_items(hits: Seq<HitModel>, graph: GraphMemory, episodic: EpisodicMemory, ctx: Seq<char>, scope: MemoryScope) -> Seq<ItemModel> {
    let kws = keywords_of(ctx);
    let qs = graph_queries(ctx);
    let refls = found_reflections(episodic.reflections(), qs, scope);
    (if blank(ctx) { Seq::empty() } else { hits.map_values(|h: HitModel| semantic_item(h)) })
        + keyed_entities(found_entities(graph.nodes(), qs, scope)).map_values(|e: EntityModel| entity_item(e, kws))
        + distinct_relations(found_relations(graph.nodes(), graph.edges(), qs, scope)).map_values(|r: RelationModel| relation_item(r, kws))
        + keyed_reflections(refls).map_values(|r: ReflectionModel| reflection_item(r, kws))
}

pub open spec fn hit_views(s: Seq<SemanticHit>) -> Seq<HitModel> {
    s.map_values(|h: SemanticHit| h.view())
}

pub open spec fn reflection_views(s: Seq<ReflectionItem>) -> Seq<ReflectionModel> {
    s.map_values(|r: ReflectionItem| r.view())
}

fn clone_entity(e: &Entity) -> (r: Entity)
    ensures
        r.view() == e.view(),
{
    Entity { name: e.name.clone(), entity_type: e.entity_type.clone(), observations: clone_strings(&e.observations) }
}

fn keyed_entities_exec(s: &Vec<Entity>) -> (r: Vec<Entity>)
    ensures
        entity_views(r@) == keyed_entities(entity_views(s@)),
{
    let ghost sv = entity_views(s@);
    let mut r: Vec<Entity> = Vec::new();
    let mut i: usize = 0;
    assert(entity_views(r@) =~= keyed_entities(sv.take(0)));
    while i < s.len()
        invariant
            i <= s.len(),
            sv == entity_views(s@),
            entity_views(r@) == keyed_entities(sv.take(i as int)),
        decreases s.len() - i,
    {
        let x = &s[i];
        proof {
            assert(sv.take(i + 1).drop_last() =~= sv.take(i as int));
            assert(sv.take(i + 1).last() == x.view());
        }
        let ghost p = entity_views(r@);
        let mut j: usize = 0;
        let mut found = false;
        while !found && j < r.len()
            invariant
                j <= r.len(),
                p == entity_views(r@),
                forall|k: int| 0 <= k < j ==> !same_name(x.view().name)(#[trigger] p[k]),
                found ==> j < r.len() && same_name(x.view().name)(p[j as int]),
            decreases r.len() - j + (if found { 0int } else { 1int }),
        {
            assert(p[j as int] == r@[j as int].view());
            if crate::text::str_eq(r[j].name.as_str(), x.name.as_str()) {
                found = true;
            } else {
                j += 1;
            }
        }
        proof {
            lemma_first_index(p, same_name(x.view().name), j as int);
        }
        if found {
            r.set(j, clone_entity(x));
            assert(entity_views(r@) =~= p.update(j as int, x.view()));
        } else {
            r.push(clone_entity(x));
            assert(entity_views(r@) =~= p.push(x.view()));
        }
        i += 1;
    }
    assert(sv.take(s.len() as int) =~= sv);
    r
}


fn clone_reflection(e: &ReflectionItem) -> (r: ReflectionItem)
    ensures
        r.view() == e.view(),
{
    ReflectionItem {
        id: e.id.clone(),
        task_description: e.task_description.clone(),
        status: e.status.clone(),
        attempt_number: e.attempt_number,
        steps_taken: e.steps_taken.clone(),
        error_encountered: crate::scope::clone_opt(&e.error_encountered),
        root_cause: crate::scope::clone_opt(&e.root_cause),
        solution_applied: crate::scope::clone_opt(&e.solution_applied),
        reflection: e.reflection.clone(),
        created_at: e.created_at.clone(),
    }
}

fn keyed_reflections_exec(s: &Vec<ReflectionItem>) -> (r: Vec<ReflectionItem>)
    ensures
        reflection_views(r@) == keyed_reflections(reflection_views(s@)),
{
    let ghost sv = reflection_views(s@);
    let mut r: Vec<ReflectionItem> = Vec::new();
    let mut i: usize = 0;
    assert(reflection_views(r@) =~= keyed_reflections(sv.take(0)));
    while i < s.len()
        invariant
            i <= s.len(),
            sv == reflection_views(s@),
            reflection_views(r@) == keyed_reflections(sv.take(i as int)),
        decreases s.len() - i,
    {
        let x = &s[i];
        proof {
            assert(sv.take(i + 1).drop_last() =~= sv.take(i as int));
            assert(sv.take(i + 1).last() == x.view());
        }
        let ghost p = reflection_views(r@);
        let mut j: usize = 0;
        let mut found = false;
        while !found && j < r.len()
            invariant
                j <= r.len(),
                p == reflection_views(r@),
                forall|k: int| 0 <= k < j ==> !same_id(x.view().id)(#[trigger] p[k]),
                found ==> j < r.len() && same_id(x.view().id)(p[j as int]),
            decreases r.len() - j + (if found { 0int } else { 1int }),
        {
            assert(p[j as int] == r@[j as int].view());
            if crate::text::str_eq(r[j].id.as_str(), x.id.as_str()) {
                found = true;
            } else {
                j += 1;
            }
        }
        proof {
            lemma_first_index(p, same_id(x.view().id), j as int);
        }
        if found {
            r.set(j, clone_reflection(x));
            assert(reflection_views(r@) =~= p.update(j as int, x.view()));
        } else {
            r.push(clone_reflection(x));
            assert(reflection_views(r@) =~= p.push(x.view()));
        }
        i += 1;
    }
    assert(sv.take(s.len() as int) =~= sv);
    r
}

fn distinct_relations_exec(s: &Vec<Relation>) -> (r: Vec<Relation>)
    ensures
        relation_views(r@) == distinct_relations(relation_views(s@)),
{
    let ghost sv = relation_views(s@);
    let mut r: Vec<Relation> = Vec::new();
    let mut i: usize = 0;
    assert(relation_views(r@) =~= distinct_relations(sv.take(0)));
    while i < s.len()
        invariant
            i <= s.len(),
            sv == relation_views(s@),
            relation_views(r@) == distinct_relations(sv.take(i as int)),
        decreases s.len() - i,
    {
        let x = &s[i];
        proof {
            assert(sv.take(i + 1).drop_last() =~= sv.take(i as int));
            assert(sv.take(i + 1).last() == x.view());
        }
        let ghost p = relation_views(r@);
        let mut j: usize = 0;
        let mut found = false;
        while !found && j < r.len()
            invariant
                j <= r.len(),
                p == relation_views(r@),
                forall|k: int| 0 <= k < j ==> p[k] != x.view(),
                found ==> j < r.len() && p[j as int] == x.view(),
            decreases r.len() - j + (if found { 0int } else { 1int }),
        {
            assert(p[j as int] == r@[j as int].view());
            let y = &r[j];
            if crate::text::str_eq(y.from.as_str(), x.from.as_str()) && crate::text::str_eq(y.to.as_str(), x.to.as_str())
                && crate::text::str_eq(y.relation_type.as_str(), x.relation_type.as_str()) {
                found = true;
            } else {
                j += 1;
            }
        }
        if !found {
            assert(!p.contains(x.view()));
            r.push(x.duplicate());
            assert(relation_views(r@) =~= p.push(x.view()));
        } else {
            assert(p.contains(x.view()));
        }
        i += 1;
    }
    assert(sv.take(s.len() as int) =~= sv);
    r
}


fn is_blank(ctx: &str) -> (b: bool)
    ensures
        b == blank(ctx@),
{
    let t = trim_str(ctx);
    let c = crate::text::chars_of(t.as_str());
    c.len() == 0
}

fn map_items_entities(s: &Vec<Entity>, kws: &Vec<String>, out: &mut Vec<RecallItem>)
    ensures
        item_views(final(out)@) == item_views(old(out)@) + entity_views(s@).map_values(|e: EntityModel| entity_item(e, string_views(kws@))),
{
    let ghost o0 = item_views(out@);
    let ghost f = |e: EntityModel| entity_item(e, string_views(kws@));
    let mut i: usize = 0;
    while i < s.len()
        invariant
            i <= s.len(),
            f == (|e: EntityModel| entity_item(e, string_views(kws@))),
            item_views(out@) == o0 + entity_views(s@).take(i as int).map_values(f),
        decreases s.len() - i,
    {
        let ghost before = item_views(out@);
        out.push(entity_item_exec(&s[i], kws));
        proof {
            assert(item_views(out@) =~= before.push(f(s@[i as int].view())));
            assert(entity_views(s@).take(i + 1).map_values(f) =~= entity_views(s@).take(i as int).map_values(f).push(f(s@[i as int].view())));
        }
        i += 1;
    }
    assert(entity_views(s@).take(s.len() as int) =~= entity_views(s@));
}

fn map_items_relations(s: &Vec<Relation>, kws: &Vec<String>, out: &mut Vec<RecallItem>)
    ensures
        item_views(final(out)@) == item_views(old(out)@) + relation_views(s@).map_values(|r: RelationModel| relation_item(r, string_views(kws@))),
{
    let ghost o0 = item_views(out@);
    let ghost f = |r: RelationModel| relation_item(r, string_views(kws@));
    let mut i: usize = 0;
    while i < s.len()
        invariant
            i <= s.len(),
            f == (|r: RelationModel| relation_item(r, string_views(kws@))),
            item_views(out@) == o0 + relation_views(s@).take(i as int).map_values(f),
        decreases s.len() - i,
    {
        let ghost before = item_views(out@);
        out.push(relation_item_exec(&s[i], kws));
        proof {
            assert(item_views(out@) =~= before.push(f(s@[i as int].view())));
            assert(relation_views(s@).take(i + 1).map_values(f) =~= relation_views(s@).take(i as int).map_values(f).push(f(s@[i as int].view())));
        }
        i += 1;
    }
    assert(relation_views(s@).take(s.len() as int) =~= relation_views(s@));
}

fn map_items_reflections(s: &Vec<ReflectionItem>, kws: &Vec<String>, out: &mut Vec<RecallItem>)
    ensures
        item_views(final(out)@) == item_views(old(out)@) + reflection_views(s@).map_values(|r: ReflectionModel| reflection_item(r, string_views(kws@))),
{
    let ghost o0 = item_views(out@);
    let ghost f = |r: ReflectionModel| reflection_item(r, string_views(kws@));
    let mut i: usize = 0;
    while i < s.len()
        invariant
            i <= s.len(),
            f == (|r: ReflectionModel| reflection_item(r, string_views(kws@))),
            item_views(out@) == o0 + reflection_views(s@).take(i as int).map_values(f),
        decreases s.len() - i,
    {
        let ghost before = item_views(out@);
        out.push(reflection_item_exec(&s[i], kws));
        proof {
            assert(item_views(out@) =~= before.push(f(s@[i as int].view())));
            assert(reflection_views(s@).take(i + 1).map_values(f) =~= reflection_views(s@).take(i as int).map_values(f).push(f(s@[i as int].view())));
        }
        i += 1;
    }
    assert(reflection_views(s@).take(s.len() as int) =~= reflection_views(s@));
}

fn raw_items_exec(hits: &Vec<SemanticHit>, graph: &GraphMemory, episodic: &EpisodicMemory, ctx: &str, scope: &MemoryScope) -> (r: Vec<RecallItem>)
    ensures
        item_views(r@) == raw_items(hit_views(hits@), *graph, *episodic, ctx@, *scope),
{
    let kws = extract_keywords(ctx);
    let is_b = is_blank(ctx);
    let mut out: Vec<RecallItem> = Vec::new();
    if !is_b {
        let mut i: usize = 0;
        while i < hits.len()
            invariant
                i <= hits.len(),
                item_views(out@) == hit_views(hits@).take(i as int).map_values(|h: HitModel| semantic_item(h)),
            decreases hits.len() - i,
        {
            let ghost before = item_views(out@);
            out.push(semantic_item_exec(&hits[i]));
            proof {
                assert(item_views(out@) =~= before.push(semantic_item(hits@[i as int].view())));
                assert(hit_views(hits@).take(i + 1).map_values(|h: HitModel| semantic_item(h))
                    =~= hit_views(hits@).take(i as int).map_values(|h: HitModel| semantic_item(h)).push(semantic_item(hits@[i as int].view())));
            }
            i += 1;
        }
        assert(hit_views(hits@).take(hits.len() as int) =~= hit_views(hits@));
    } else {
        assert(item_views(out@) =~= Seq::<ItemModel>::empty());
    }
    let mut queries: Vec<String> = Vec::new();
    if !is_b {
        queries.push(owned(ctx));
    }
    let mut kq = clone_strings(&kws);
    queries.append(&mut kq);
    let ghost qs = graph_queries(ctx@);
    assert(string_views(queries@) =~= qs);
    let mut ents: Vec<Entity> = Vec::new();
    let mut rels: Vec<Relation> = Vec::new();
    let mut refls: Vec<ReflectionItem> = Vec::new();
    let mut q: usize = 0;
    while q < queries.len()
        invariant
            q <= queries.len(),
            qs == string_views(queries@),
            entity_views(ents@) == found_entities(graph.nodes(), qs.take(q as int), *scope),
            relation_views(rels@) == found_relations(graph.nodes(), graph.edges(), qs.take(q as int), *scope),
            reflection_views(refls@) == found_reflections(episodic.reflections(), qs.take(q as int), *scope),
        decreases queries.len() - q,
    {
        let ghost f0 = reflection_views(refls@);
        let mut found = episodic.get_reflections(queries[q].as_str(), scope);
        let ghost fv = reflection_views(found@);
        refls.append(&mut found);
        assert(reflection_views(refls@) =~= f0 + fv);
        let kg = graph.search_nodes(queries[q].as_str(), scope);
        let ghost e0 = entity_views(ents@);
        let ghost r0 = relation_views(rels@);
        let mut es = kg.entities;
        let mut rs = kg.relations;
        let ghost ev = entity_views(es@);
        let ghost rv = relation_views(rs@);
        ents.append(&mut es);
        rels.append(&mut rs);
        proof {
            assert(qs.take(q + 1).drop_last() =~= qs.take(q as int));
            assert(qs.take(q + 1).last() == queries@[q as int]@);
            assert(entity_views(ents@) =~= e0 + ev);
            assert(relation_views(rels@) =~= r0 + rv);
        }
        q += 1;
    }
    assert(qs.take(queries.len() as int) =~= qs);
    let ke = keyed_entities_exec(&ents);
    let dr = distinct_relations_exec(&rels);
    let kr = keyed_reflections_exec(&refls);
    let ghost o1 = item_views(out@);
    map_items_entities(&ke, &kws, &mut out);
    map_items_relations(&dr, &kws, &mut out);
    map_items_reflections(&kr, &kws, &mut out);
    out
}


/// The key under which items with the same text merge: trimmed and lowercased.
pub open spec fn merge_key(c: Seq<char>) -> Seq<char> {
    lower(trim(c))
}

pub open spec fn same_key(k: Seq<char>) -> spec_fn(ItemModel) -> bool {
    |x: ItemModel| merge_key(x.content) == k
}

pub open spec fn same_meta_key(k: Seq<char>) -> spec_fn((Seq<char>, MetaModel)) -> bool {
    |e: (Seq<char>, MetaModel)| e.0 == k
}

/// Setting a metadata entry: an entry with the key is replaced, else it is added.
pub open spec fn meta_put(m: Meta, kv: (Seq<char>, MetaModel)) -> Meta {
    let i = first_index(m, same_meta_key(kv.0));
    if i < 0 { m.push(kv) } else { m.update(i, kv) }
}

/// Setting each entry of `n` in turn.
pub open spec fn meta_merge(m: Meta, n: Meta) -> Meta
    decreases n.len(),
{
    if n.len() == 0 {
        m
    } else {
        meta_put(meta_merge(m, n.drop_last()), n.last())
    }
}

/// An item absorbing another with the same text: the higher confidence raised by 0.15
/// (capped), the other's layer appended unless the layer list already contains it, and
/// the other's metadata set over its own.
pub open spec fn absorb(e: ItemModel, x: ItemModel) -> ItemModel {
    ItemModel {
        layer: if contains_seq(e.layer, x.layer) { e.layer } else { e.layer + ","@ + x.layer },
        content: e.content,
        confidence: capped((if e.confidence >= x.confidence { e.confidence } else { x.confidence }) + 150_000),
        metadata: meta_merge(e.metadata, x.metadata),
    }
}

/// Adding an item to the merged list: absorbed by the first item with the same key, or
/// appended.
pub open spec fn merge_in(items: Seq<ItemModel>, x: ItemModel) -> Seq<ItemModel> {
    let i = first_index(items, same_key(merge_key(x.content)));
    if i < 0 { items.push(x) } else { items.update(i, absorb(items[i], x)) }
}

pub open spec fn merge_all(s: Seq<ItemModel>) -> Seq<ItemModel>
    decreases s.len(),
{
    if s.len() == 0 {
        Seq::empty()
    } else {
        merge_in(merge_all(s.drop_last()), s.last())
    }
}

impl MetaValue {
    pub fn duplicate(&self) -> (r: Self)
        ensures
            r.view() == self.view(),
    {
        match self {
            MetaValue::Text(s) => MetaValue::Text(s.clone()),
            MetaValue::Number(n) => MetaValue::Number(*n),
            MetaValue::Ppm(n) => MetaValue::Ppm(*n),
            MetaValue::List(v) => MetaValue::List(clone_strings(v)),
        }
    }
}

fn meta_put_exec(m: &mut Vec<(String, MetaValue)>, k: &String, v: &MetaValue)
    ensures
        meta_views(final(m)@) == meta_put(meta_views(old(m)@), (k@, v.view())),
{
    let ghost p = meta_views(m@);
    let mut j: usize = 0;
    let mut found = false;
    while !found && j < m.len()
        invariant
            j <= m.len(),
            p == meta_views(m@),
            forall|t: int| 0 <= t < j ==> !same_meta_key(k@)(#[trigger] p[t]),
            found ==> j < m.len() && same_meta_key(k@)(p[j as int]),
        decreases m.len() - j + (if found { 0int } else { 1int }),
    {
        assert(p[j as int] == (m@[j as int].0@, m@[j as int].1.view()));
        if crate::text::str_eq(m[j].0.as_str(), k.as_str()) {
            found = true;
        } else {
            j += 1;
        }
    }
    proof {
        lemma_first_index(p, same_meta_key(k@), j as int);
    }
    if found {
        m.set(j, (k.clone(), v.duplicate()));
        assert(meta_views(m@) =~= p.update(j as int, (k@, v.view())));
    } else {
        m.push((k.clone(), v.duplicate()));
        assert(meta_views(m@) =~= p.push((k@, v.view())));
    }
}

fn meta_merge_exec(m: &mut Vec<(String, MetaValue)>, n: &Vec<(String, MetaValue)>)
    ensures
        meta_views(final(m)@) == meta_merge(meta_views(old(m)@), meta_views(n@)),
{
    let ghost m0 = meta_views(m@);
    let ghost nv = meta_views(n@);
    let mut i: usize = 0;
    while i < n.len()
        invariant
            i <= n.len(),
            nv == meta_views(n@),
            meta_views(m@) == meta_merge(m0, nv.take(i as int)),
        decreases n.len() - i,
    {
        proof {
            assert(nv.take(i + 1).drop_last() =~= nv.take(i as int));
            assert(nv.take(i + 1).last() == (n@[i as int].0@, n@[i as int].1.view()));
        }
        meta_put_exec(m, &n[i].0, &n[i].1);
        i += 1;
    }
    assert(nv.take(n.len() as int) =~= nv);
}

fn clone_meta(m: &Vec<(String, MetaValue)>) -> (r: Vec<(String, MetaValue)>)
    ensures
        meta_views(r@) == meta_views(m@),
{
    let mut r: Vec<(String, MetaValue)> = Vec::new();
    let mut i: usize = 0;
    while i < m.len()
        invariant
            i <= m.len(),
            meta_views(r@) == meta_views(m@).take(i as int),
        decreases m.len() - i,
    {
        let ghost before = meta_views(r@);
        let kv = (m[i].0.clone(), m[i].1.duplicate());
        r.push(kv);
        assert(meta_views(r@) =~= before.push((m@[i as int].0@, m@[i as int].1.view())));
        assert(meta_views(m@).take(i + 1) =~= meta_views(m@).take(i as int).push((m@[i as int].0@, m@[i as int].1.view())));
        i += 1;
    }
    assert(meta_views(m@).take(m.len() as int) =~= meta_views(m@));
    r
}

impl RecallItem {
    pub fn duplicate(&self) -> (r: Self)
        ensures
            r.view() == self.view(),
    {
        RecallItem { layer: self.layer.clone(), content: self.content.clone(), confidence_ppm: self.confidence_ppm, metadata: clone_meta(&self.metadata) }
    }
}

fn merge_key_exec(c: &str) -> (r: String)
    ensures
        r@ == merge_key(c@),
{
    let t = trim_str(c);
    lower_exec(t.as_str())
}

fn absorb_exec(e: &mut RecallItem, x: &RecallItem)
    ensures
        final(e).view() == absorb(old(e).view(), x.view()),
{
    let hi: u64 = if e.confidence_ppm >= x.confidence_ppm { e.confidence_ppm as u64 } else { x.confidence_ppm as u64 };
    let c: u64 = hi + 150_000;
    e.confidence_ppm = if c > 1_000_000 { 1_000_000 } else { c as u32 };
    if !contains_str(e.layer.as_str(), x.layer.as_str()) {
        e.layer.append(",");
        e.layer.append(x.layer.as_str());
    }
    meta_merge_exec(&mut e.metadata, &x.metadata);
}

/// Items with the same trimmed, lowercased text merged into the first of them (see
/// `merge_all`).
fn merge_exec(raw: &Vec<RecallItem>) -> (r: Vec<RecallItem>)
    ensures
        item_views(r@) == merge_all(item_views(raw@)),
{
    let ghost sv = item_views(raw@);
    let mut r: Vec<RecallItem> = Vec::new();
    assert(item_views(r@) =~= merge_all(sv.take(0)));
    let mut i: usize = 0;
    while i < raw.len()
        invariant
            i <= raw.len(),
            sv == item_views(raw@),
            item_views(r@) == merge_all(sv.take(i as int)),
        decreases raw.len() - i,
    {
        let x = &raw[i];
        proof {
            assert(sv.take(i + 1).drop_last() =~= sv.take(i as int));
            assert(sv.take(i + 1).last() == x.view());
        }
        let k = merge_key_exec(x.content.as_str());
        let ghost p = item_views(r@);
        let mut j: usize = 0;
        let mut found = false;
        while !found && j < r.len()
            invariant
                j <= r.len(),
                p == item_views(r@),
                k@ == merge_key(x.view().content),
                forall|t: int| 0 <= t < j ==> !same_key(k@)(#[trigger] p[t]),
                found ==> j < r.len() && same_key(k@)(p[j as int]),
            decreases r.len() - j + (if found { 0int } else { 1int }),
        {
            assert(p[j as int] == r@[j as int].view());
            let kj = merge_key_exec(r[j].content.as_str());
            if crate::text::str_eq(kj.as_str(), k.as_str()) {
                found = true;
            } else {
                j += 1;
            }
        }
        proof {
            lemma_first_index(p, same_key(k@), j as int);
        }
        if found {
            let mut e = r[j].duplicate();
            absorb_exec(&mut e, x);
            r.set(j, e);
            assert(item_views(r@) =~= p.update(j as int, absorb(p[j as int], x.view())));
        } else {
            r.push(x.duplicate());
            assert(item_views(r@) =~= p.push(x.view()));
        }
        i += 1;
    }
    assert(sv.take(raw.len() as int) =~= sv);
    r
}


/// The lowercased entity name of a graph item: the text under its "name" key.
pub open spec fn self_name(x: ItemModel) -> Option<Seq<char>> {
    let i = first_index(x.metadata, same_meta_key("name"@));
    if contains_seq(x.layer, "graph"@) && i >= 0 && x.metadata[i].1 is Text {
        Some(lower(x.metadata[i].1->Text_0))
    } else {
        None
    }
}

/// The entity names of the graph items, in order.
pub open spec fn entity_names(items: Seq<ItemModel>) -> Seq<Seq<char>>
    decreases items.len(),
{
    if items.len() == 0 {
        Seq::empty()
    } else {
        let p = entity_names(items.drop_last());
        match self_name(items.last()) {
            Some(n) => p.push(n),
            None => p,
        }
    }
}

/// An item refers to entity `n`: its lowercased text contains the name, and it is not
/// the graph item of that entity itself.
pub open spec fn refers_to(x: ItemModel, n: Seq<char>) -> bool {
    self_name(x) != Some(n) && contains_seq(lower(x.content), n)
}

pub open spec fn referring(n: Seq<char>) -> spec_fn(ItemModel) -> bool {
    |x: ItemModel| refers_to(x, n)
}

/// What one entity name adds to the boost of `x`: a tenth when `x` refers to it, and a
/// tenth per referring item when `x` is that entity's graph item.
pub open spec fn name_units(items: Seq<ItemModel>, n: Seq<char>, x: ItemModel) -> int {
    (if refers_to(x, n) { 1int } else { 0int })
        + (if self_name(x) == Some(n) { items.filter(referring(n)).len() as int } else { 0int })
}

/// The boost of `x` in tenths, over the entity names `names` (each occurrence counts).
pub open spec fn boost_units(items: Seq<ItemModel>, names: Seq<Seq<char>>, x: ItemModel) -> int
    decreases names.len(),
{
    if names.len() == 0 {
        0
    } else {
        boost_units(items, names.drop_last(), x) + name_units(items, names.last(), x)
    }
}

pub open spec fn boosted(x: ItemModel, units: int) -> ItemModel {
    if units > 0 {
        ItemModel { confidence: capped(x.confidence + 100_000 * units), ..x }
    } else {
        x
    }
}

/// Cross-layer boosting: every item raised by its boost (see `name_units`).
pub open spec fn boost_all(items: Seq<ItemModel>) -> Seq<ItemModel> {
    items.map_values(|x: ItemModel| boosted(x, boost_units(items, entity_names(items), x)))
}

fn meta_text(m: &Vec<(String, MetaValue)>, k: &str) -> (r: Option<String>)
    ensures
        ({
            let i = first_index(meta_views(m@), same_meta_key(k@));
            match r {
                Some(s) => i >= 0 && meta_views(m@)[i].1 == MetaModel::Text(s@),
                None => !(i >= 0 && meta_views(m@)[i].1 is Text),
            }
        }),
{
    let ghost p = meta_views(m@);
    let mut j: usize = 0;
    while j < m.len()
        invariant
            j <= m.len(),
            p == meta_views(m@),
            forall|t: int| 0 <= t < j ==> !same_meta_key(k@)(#[trigger] p[t]),
        decreases m.len() - j,
    {
        assert(p[j as int] == (m@[j as int].0@, m@[j as int].1.view()));
        if crate::text::str_eq(m[j].0.as_str(), k) {
            proof {
                lemma_first_index(p, same_meta_key(k@), j as int);
            }
            return match &m[j].1 {
                MetaValue::Text(s) => Some(s.clone()),
                _ => None,
            };
        }
        j += 1;
    }
    proof {
        lemma_first_index(p, same_meta_key(k@), j as int);
    }
    None
}

fn self_name_exec(x: &RecallItem) -> (r: Option<String>)
    ensures
        match r {
            Some(s) => self_name(x.view()) == Some(s@),
            None => self_name(x.view()) is None,
        },
{
    if !contains_str(x.layer.as_str(), "graph") {
        return None;
    }
    match meta_text(&x.metadata, "name") {
        Some(s) => Some(lower_exec(s.as_str())),
        None => None,
    }
}

fn entity_names_exec(items: &Vec<RecallItem>) -> (r: Vec<String>)
    ensures
        string_views(r@) == entity_names(item_views(items@)),
{
    let ghost sv = item_views(items@);
    let mut r: Vec<String> = Vec::new();
    let mut i: usize = 0;
    assert(string_views(r@) =~= entity_names(sv.take(0)));
    while i < items.len()
        invariant
            i <= items.len(),
            sv == item_views(items@),
            string_views(r@) == entity_names(sv.take(i as int)),
        decreases items.len() - i,
    {
        proof {
            assert(sv.take(i + 1).drop_last() =~= sv.take(i as int));
            assert(sv.take(i + 1).last() == items@[i as int].view());
        }
        let ghost before = string_views(r@);
        match self_name_exec(&items[i]) {
            Some(n) => {
                r.push(n);
                assert(string_views(r@) =~= before.push(self_name(items@[i as int].view()).unwrap()));
            },
            None => {},
        }
        i += 1;
    }
    assert(sv.take(items.len() as int) =~= sv);
    r
}

fn refers_to_exec(x: &RecallItem, n: &String) -> (b: bool)
    ensures
        b == refers_to(x.view(), n@),
{
    let own = self_name_exec(x);
    let is_self = match &own {
        Some(s) => crate::text::str_eq(s.as_str(), n.as_str()),
        None => false,
    };
    if is_self {
        return false;
    }
    let lc = lower_exec(x.content.as_str());
    contains_str(lc.as_str(), n.as_str())
}

/// The number of items that refer to `n`, saturating.
fn count_referring(items: &Vec<RecallItem>, n: &String) -> (c: u64)
    ensures
        c == item_views(items@).filter(referring(n@)).len(),
{
    let ghost sv = item_views(items@);
    let mut c: u64 = 0;
    let mut i: usize = 0;
    while i < items.len()
        invariant
            i <= items.len(),
            sv == item_views(items@),
            c == sv.take(i as int).filter(referring(n@)).len(),
            c <= i,
        decreases items.len() - i,
    {
        proof {
            assert(sv.take(i + 1) =~= sv.take(i as int).push(sv[i as int]));
            lemma_filter_push(sv.take(i as int), sv[i as int], referring(n@));
            sv.take(i as int).lemma_filter_len(referring(n@));
        }
        if refers_to_exec(&items[i], n) {
            c += 1;
        }
        i += 1;
    }
    assert(sv.take(items.len() as int) =~= sv);
    c
}

fn sat_add(a: u64, b: u64) -> (r: u64)
    ensures
        r == (if a + b > u64::MAX { u64::MAX as int } else { a + b }),
{
    if a > u64::MAX - b { u64::MAX } else { a + b }
}

/// The boost of each item in tenths, saturating at `u64::MAX`.
fn boosts_exec(items: &Vec<RecallItem>) -> (r: Vec<u64>)
    ensures
        r.len() == items.len(),
        forall|j: int| 0 <= j < items.len() ==> {
            let u = boost_units(item_views(items@), entity_names(item_views(items@)), items@[j].view());
            #[trigger] r@[j] == (if u > u64::MAX { u64::MAX as int } else { u })
        },
{
    let names = entity_names_exec(items);
    let ghost sv = item_views(items@);
    let ghost ns = string_views(names@);
    let mut r: Vec<u64> = Vec::new();
    let mut j: usize = 0;
    while j < items.len()
        invariant
            j <= items.len(),
            sv == item_views(items@),
            ns == string_views(names@),
            ns == entity_names(sv),
            r.len() == j,
            forall|m: int| 0 <= m < j ==> {
                let u = boost_units(sv, ns, items@[m].view());
                #[trigger] r@[m] == (if u > u64::MAX { u64::MAX as int } else { u })
            },
        decreases items.len() - j,
    {
        let x = &items[j];
        let own = self_name_exec(x);
        let mut u: u64 = 0;
        let mut t: usize = 0;
        while t < names.len()
            invariant
                t <= names.len(),
                sv == item_views(items@),
                ns == string_views(names@),
                j < items.len(),
                x == items@[j as int],
                match own {
                    Some(s) => self_name(x.view()) == Some(s@),
                    None => self_name(x.view()) is None,
                },
                0 <= boost_units(sv, ns.take(t as int), x.view()),
                u == (if boost_units(sv, ns.take(t as int), x.view()) > u64::MAX { u64::MAX as int } else { boost_units(sv, ns.take(t as int), x.view()) }),
            decreases names.len() - t,
        {
            let n = &names[t];
            proof {
                assert(ns.take(t + 1).drop_last() =~= ns.take(t as int));
                assert(ns.take(t + 1).last() == n@);
            }
            let mut add: u64 = 0;
            if refers_to_exec(x, n) {
                add = 1;
            }
            let is_self = match &own {
                Some(s) => crate::text::str_eq(s.as_str(), n.as_str()),
                None => false,
            };
            if is_self {
                let c = count_referring(items, n);
                add = sat_add(add, c);
            }
            assert(add == name_units(sv, n@, x.view()));
            u = sat_add(u, add);
            t += 1;
        }
        assert(ns.take(names.len() as int) =~= ns);
        r.push(u);
        j += 1;
    }
    r
}

fn boost_exec(items: &mut Vec<RecallItem>)
    ensures
        item_views(final(items)@) == boost_all(item_views(old(items)@)),
{
    let b = boosts_exec(items);
    let ghost sv = item_views(items@);
    let mut i: usize = 0;
    while i < items.len()
        invariant
            i <= items.len(),
            b.len() == items.len(),
            sv.len() == items.len(),
            forall|j: int| 0 <= j < items.len() ==> {
                let u = boost_units(sv, entity_names(sv), sv[j]);
                #[trigger] b@[j] == (if u > u64::MAX { u64::MAX as int } else { u })
            },
            forall|j: int| 0 <= j < i ==> #[trigger] items@[j].view() == boost_all(sv)[j],
            forall|j: int| i <= j < items.len() ==> #[trigger] items@[j].view() == sv[j],
        decreases items.len() - i,
    {
        let u = b[i];
        let mut x = items[i].duplicate();
        assert(x.view() == sv[i as int]);
        if u > 0 {
            if u >= 10 {
                x.confidence_ppm = 1_000_000;
            } else {
                let c: u64 = x.confidence_ppm as u64 + 100_000 * u;
                x.confidence_ppm = if c > 1_000_000 { 1_000_000 } else { c as u32 };
            }
        }
        items.set(i, x);
        i += 1;
    }
    assert(item_views(items@) =~= boost_all(sv));
}


pub open spec fn below(c: int) -> spec_fn(ItemModel) -> bool {
    |y: ItemModel| y.confidence < c
}

/// Inserting into a list ranked by descending confidence: before the first item of lower
/// confidence, so that equal confidences keep their order.
pub open spec fn insert_ranked(sorted: Seq<ItemModel>, x: ItemModel) -> Seq<ItemModel> {
    let i = first_index(sorted, below(x.confidence));
    if i < 0 { sorted.push(x) } else { sorted.insert(i, x) }
}

/// A stable sort by descending confidence.
pub open spec fn rank(s: Seq<ItemModel>) -> Seq<ItemModel>
    decreases s.len(),
{
    if s.len() == 0 {
        Seq::empty()
    } else {
        insert_ranked(rank(s.drop_last()), s.last())
    }
}

/// What `recall` returns: the gathered items merged by text, boosted across layers,
/// ranked by descending confidence, and cut to `max_results`.
pub open spec fn recall_spec(hits: Seq<HitModel>, graph: GraphMemory, episodic: EpisodicMemory, ctx: Seq<char>, max_results: int, scope: MemoryScope) -> Seq<ItemModel> {
    let ranked = rank(boost_all(merge_all(raw_items(hits, graph, episodic, ctx, scope))));
    if max_results < ranked.len() { ranked.take(max_results) } else { ranked }
}

pub open spec fn descending(s: Seq<ItemModel>) -> bool {
    forall|i: int, j: int| 0 <= i < j < s.len() ==> s[i].confidence >= s[j].confidence
}

proof fn lemma_insert_ranked(s: Seq<ItemModel>, x: ItemModel)
    requires
        descending(s),
    ensures
        descending(insert_ranked(s, x)),
        insert_ranked(s, x).to_multiset() == s.to_multiset().insert(x),
{
    let i = first_index(s, below(x.confidence));
    lemma_first_index_props(s, below(x.confidence));
    if i < 0 {
        assert forall|k: int| 0 <= k < s.len() implies s[k].confidence >= x.confidence by {
            assert(!below(x.confidence)(s[k]));
        }
        s.to_multiset_ensures();
        assert(s.push(x).to_multiset() =~= s.to_multiset().insert(x)) by {
            vstd::seq_lib::lemma_multiset_commutative(s, seq![x]);
            assert(s + seq![x] =~= s.push(x));
        }
    } else {
        let r = s.insert(i, x);
        assert forall|a: int, b: int| 0 <= a < b < r.len() implies r[a].confidence >= r[b].confidence by {
            if a < i {
                assert(!below(x.confidence)(s[a]));
            }
        }
        vstd::seq_lib::to_multiset_insert(s, i, x);
    }
}

pub(crate) proof fn lemma_first_index_props<A>(s: Seq<A>, f: spec_fn(A) -> bool)
    ensures
        -1 <= first_index(s, f) < s.len(),
        first_index(s, f) >= 0 ==> f(s[first_index(s, f)]),
        forall|k: int| 0 <= k < s.len() && (first_index(s, f) < 0 || k < first_index(s, f)) ==> !f(#[trigger] s[k]),
    decreases s.len(),
{
    if s.len() > 0 && !f(s[0]) {
        lemma_first_index_props(s.drop_first(), f);
        assert forall|k: int| 0 <= k < s.len() && (first_index(s, f) < 0 || k < first_index(s, f)) implies !f(#[trigger] s[k]) by {
            if k > 0 {
                assert(s[k] == s.drop_first()[k - 1]);
            }
        }
    }
}

proof fn lemma_rank(s: Seq<ItemModel>)
    ensures
        descending(rank(s)),
        rank(s).to_multiset() == s.to_multiset(),
        rank(s).len() == s.len(),
    decreases s.len(),
{
    if s.len() > 0 {
        lemma_rank(s.drop_last());
        lemma_insert_ranked(rank(s.drop_last()), s.last());
        assert(s =~= s.drop_last().push(s.last()));
        s.drop_last().to_multiset_ensures();
        rank(s).to_multiset_ensures();
        rank(s.drop_last()).to_multiset_ensures();
    } else {
        assert(s =~= rank(s));
    }
}

fn rank_exec(items: Vec<RecallItem>) -> (r: Vec<RecallItem>)
    ensures
        item_views(r@) == rank(item_views(items@)),
{
    let ghost sv = item_views(items@);
    let mut r: Vec<RecallItem> = Vec::new();
    assert(item_views(r@) =~= rank(sv.take(0)));
    let mut i: usize = 0;
    while i < items.len()
        invariant
            i <= items.len(),
            sv == item_views(items@),
            item_views(r@) == rank(sv.take(i as int)),
        decreases items.len() - i,
    {
        let x = &items[i];
        proof {
            assert(sv.take(i + 1).drop_last() =~= sv.take(i as int));
            assert(sv.take(i + 1).last() == x.view());
        }
        let ghost p = item_views(r@);
        let mut j: usize = 0;
        let mut found = false;
        while !found && j < r.len()
            invariant
                j <= r.len(),
                p == item_views(r@),
                forall|t: int| 0 <= t < j ==> !below(x.view().confidence)(#[trigger] p[t]),
                found ==> j < r.len() && below(x.view().confidence)(p[j as int]),
            decreases r.len() - j + (if found { 0int } else { 1int }),
        {
            assert(p[j as int] == r@[j as int].view());
            if r[j].confidence_ppm < x.confidence_ppm {
                found = true;
            } else {
                j += 1;
            }
        }
        proof {
            lemma_first_index(p, below(x.view().confidence), j as int);
        }
        if found {
            r.insert(j, x.duplicate());
            assert(item_views(r@) =~= p.insert(j as int, x.view()));
        } else {
            r.push(x.duplicate());
            assert(item_views(r@) =~= p.push(x.view()));
        }
        i += 1;
    }
    assert(sv.take(items.len() as int) =~= sv);
    r
}

/// Every confidence is at most full confidence.
pub open spec fn bounded(s: Seq<ItemModel>) -> bool {
    forall|i: int| 0 <= i < s.len() ==> 0 <= #[trigger] s[i].confidence <= full()
}

proof fn lemma_raw_bounded(hits: Seq<HitModel>, graph: GraphMemory, episodic: EpisodicMemory, ctx: Seq<char>, scope: MemoryScope)
    requires
        forall|i: int| 0 <= i < hits.len() ==> #[trigger] hits[i].similarity >= 0,
    ensures
        bounded(raw_items(hits, graph, episodic, ctx, scope)),
{
}

proof fn lemma_merge_bounded(s: Seq<ItemModel>)
    requires
        bounded(s),
    ensures
        bounded(merge_all(s)),
    decreases s.len(),
{
    if s.len() > 0 {
        lemma_merge_bounded(s.drop_last());
        let p = merge_all(s.drop_last());
        lemma_first_index_props(p, same_key(merge_key(s.last().content)));
        assert(s.last() == s[s.len() - 1]);
    }
}

proof fn lemma_boost_bounded(s: Seq<ItemModel>)
    requires
        bounded(s),
    ensures
        bounded(boost_all(s)),
{
    assert forall|i: int| 0 <= i < boost_all(s).len() implies 0 <= #[trigger] boost_all(s)[i].confidence <= full() by {
        assert(s[i].confidence >= 0);
    }
}

proof fn lemma_rank_bounded(s: Seq<ItemModel>)
    requires
        bounded(s),
    ensures
        bounded(rank(s)),
{
    lemma_rank(s);
    assert forall|i: int| 0 <= i < rank(s).len() implies 0 <= #[trigger] rank(s)[i].confidence <= full() by {
        let x = rank(s)[i];
        rank(s).to_multiset_ensures();
        s.to_multiset_ensures();
        assert(rank(s).to_multiset().count(x) > 0);
        assert(s.contains(x));
    }
}

pub struct RecallEngine;

impl RecallEngine {
    /// Proactive recall for the current context.  The items gathered are: the semantic
    /// hits (unless the context is blank), and the entities, relations and reflections that
    /// graph and episodic search find for the context and for each of its keywords.  Entity, relation and reflection items start at
    /// 0.6, 0.5 and 0.6 and gain 0.1 per keyword found in them.  Items with the same
    /// trimmed, lowercased text merge; items that mention an entity of the graph raise
    /// themselves and that entity's item; the result is ranked by descending confidence
    /// (ties keep their order) and cut to `max_results`.  Confidences stay within full
    /// confidence.
    pub fn recall(semantic_hits: &Vec<SemanticHit>, graph: &GraphMemory, episodic: &EpisodicMemory,
        current_context: &str, max_results: usize, scope: &MemoryScope) -> (r: Vec<RecallItem>)
        ensures
            item_views(r@) == recall_spec(hit_views(semantic_hits@), *graph, *episodic, current_context@, max_results as int, *scope),
            descending(item_views(r@)),
            bounded(item_views(r@)),
            r.len() <= max_results,
    {
        let raw = raw_items_exec(semantic_hits, graph, episodic, current_context, scope);
        let mut merged = merge_exec(&raw);
        boost_exec(&mut merged);
        let mut ranked = rank_exec(merged);
        let ghost rk = item_views(ranked@);
        proof {
            let hv = hit_views(semantic_hits@);
            assert forall|i: int| 0 <= i < hv.len() implies #[trigger] hv[i].similarity >= 0 by {
                assert(hv[i] == semantic_hits@[i].view());
            }
            let s0 = raw_items(hv, *graph, *episodic, current_context@, *scope);
            lemma_raw_bounded(hv, *graph, *episodic, current_context@, *scope);
            lemma_merge_bounded(s0);
            lemma_boost_bounded(merge_all(s0));
            lemma_rank_bounded(boost_all(merge_all(s0)));
            lemma_rank(boost_all(merge_all(s0)));
        }
        if max_results < ranked.len() {
            ranked.truncate(max_results);
            assert(item_views(ranked@) =~= rk.take(max_results as int));
        }
        ranked
    }
}


pub open spec fn keys_distinct(s: Seq<ItemModel>) -> bool {
    forall|i: int, j: int| 0 <= i < j < s.len() ==> merge_key(s[i].content) != merge_key(s[j].content)
}

proof fn lemma_merge_distinct(s: Seq<ItemModel>)
    ensures
        keys_distinct(merge_all(s)),
    decreases s.len(),
{
    if s.len() > 0 {
        lemma_merge_distinct(s.drop_last());
        let p = merge_all(s.drop_last());
        let x = s.last();
        lemma_first_index_props(p, same_key(merge_key(x.content)));
        let i = first_index(p, same_key(merge_key(x.content)));
        if i < 0 {
            assert forall|a: int, b: int| 0 <= a < b < merge_all(s).len() implies merge_key(merge_all(s)[a].content) != merge_key(merge_all(s)[b].content) by {
                if b == p.len() {
                    assert(!same_key(merge_key(x.content))(p[a]));
                }
            }
        } else {
            assert forall|a: int, b: int| 0 <= a < b < merge_all(s).len() implies merge_key(merge_all(s)[a].content) != merge_key(merge_all(s)[b].content) by {
                assert(merge_all(s)[a].content == p[a].content);
                assert(merge_all(s)[b].content == p[b].content);
            }
        }
    }
}

proof fn lemma_rank_members(s: Seq<ItemModel>)
    ensures
        forall|i: int| 0 <= i < rank(s).len() ==> s.contains(#[trigger] rank(s)[i]),
        keys_distinct(s) ==> keys_distinct(rank(s)),
        rank(s).len() == s.len(),
    decreases s.len(),
{
    if s.len() > 0 {
        let s0 = s.drop_last();
        let x = s.last();
        lemma_rank_members(s0);
        let p = rank(s0);
        lemma_first_index_props(p, below(x.confidence));
        let i = first_index(p, below(x.confidence));
        let r = rank(s);
        assert forall|k: int| 0 <= k < r.len() implies s.contains(#[trigger] r[k]) by {
            if i < 0 {
                if k < p.len() {
                    let w = choose|w: int| 0 <= w < s0.len() && s0[w] == p[k];
                    assert(s[w] == p[k]);
                } else {
                    assert(s[s.len() - 1] == x);
                }
            } else {
                if k < i {
                    let w = choose|w: int| 0 <= w < s0.len() && s0[w] == p[k];
                    assert(s[w] == p[k]);
                } else if k == i {
                    assert(s[s.len() - 1] == x);
                } else {
                    assert(r[k] == p[k - 1]);
                    let w = choose|w: int| 0 <= w < s0.len() && s0[w] == p[k - 1];
                    assert(s[w] == p[k - 1]);
                }
            }
        }
        if keys_distinct(s) {
            assert(keys_distinct(s0)) by {
                assert forall|a: int, b: int| 0 <= a < b < s0.len() implies merge_key(s0[a].content) != merge_key(s0[b].content) by {
                    assert(s0[a] == s[a]);
                    assert(s0[b] == s[b]);
                }
            }
            assert forall|k: int| 0 <= k < p.len() implies merge_key(#[trigger] p[k].content) != merge_key(x.content) by {
                let w = choose|w: int| 0 <= w < s0.len() && s0[w] == p[k];
                assert(s[w] == p[k]);
                assert(s[s.len() - 1] == x);
            }
            assert forall|a: int, b: int| 0 <= a < b < r.len() implies merge_key(r[a].content) != merge_key(r[b].content) by {
                if i < 0 {
                    if b == p.len() {
                        assert(r[a] == p[a]);
                    }
                } else {
                    if a < i && b < i {
                    } else if a < i && b == i {
                        assert(r[a] == p[a]);
                    } else if a < i {
                        assert(r[a] == p[a]);
                        assert(r[b] == p[b - 1]);
                    } else if a == i {
                        assert(r[b] == p[b - 1]);
                    } else {
                        assert(r[a] == p[a - 1]);
                        assert(r[b] == p[b - 1]);
                    }
                }
            }
        }
    }
}

/// Recall never returns two items with the same trimmed, lowercased text.
pub proof fn law_recall_texts_distinct(hits: Seq<HitModel>, graph: GraphMemory, episodic: EpisodicMemory, ctx: Seq<char>, max_results: int, scope: MemoryScope)
    requires
        0 <= max_results,
    ensures
        keys_distinct(recall_spec(hits, graph, episodic, ctx, max_results, scope)),
{
    let m = merge_all(raw_items(hits, graph, episodic, ctx, scope));
    lemma_merge_distinct(raw_items(hits, graph, episodic, ctx, scope));
    let b = boost_all(m);
    assert(keys_distinct(b)) by {
        assert forall|i: int, j: int| 0 <= i < j < b.len() implies merge_key(b[i].content) != merge_key(b[j].content) by {
            assert(b[i].content == m[i].content);
            assert(b[j].content == m[j].content);
        }
    }
    lemma_rank_members(b);
    let r = rank(b);
    if max_results < r.len() {
        assert forall|i: int, j: int| 0 <= i < j < r.take(max_results).len() implies merge_key(r.take(max_results)[i].content) != merge_key(r.take(max_results)[j].content) by {
            assert(r.take(max_results)[i] == r[i]);
            assert(r.take(max_results)[j] == r[j]);
        }
    }
}


/// One of the three memory layers that recall draws on.
pub open spec fn layer_name(s: Seq<char>) -> bool {
    s == "semantic"@ || s == "graph"@ || s == "episodic"@
}

/// A layer field: layer names, none twice, joined by commas.
pub open spec fn layer_list(layer: Seq<char>) -> bool {
    exists|names: Seq<Seq<char>>| {
        &&& names.len() > 0
        &&& names.no_duplicates()
        &&& forall|i: int| 0 <= i < names.len() ==> layer_name(#[trigger] names[i])
        &&& layer == #[trigger] join(names, ","@)
    }
}

/// A joined list contains each of its parts.
proof fn lemma_join_contains(names: Seq<Seq<char>>, sep: Seq<char>, k: int)
    requires
        0 <= k < names.len(),
    ensures
        contains_seq(join(names, sep), names[k]),
    decreases names.len(),
{
    let n = names[k];
    if names.len() == 1 {
        assert(n.subrange(0, n.len() as int) =~= n);
        assert(crate::text::occurs_at(join(names, sep), n, 0));
    } else {
        let j = join(names.drop_last(), sep);
        let whole = join(names, sep);
        assert(whole == j + sep + names.last());
        if k == names.len() - 1 {
            let at: int = (j.len() + sep.len()) as int;
            assert(whole.subrange(at, at + n.len()) =~= n);
            assert(crate::text::occurs_at(whole, n, at));
        } else {
            assert(names.drop_last()[k] == n);
            lemma_join_contains(names.drop_last(), sep, k);
            let at = choose|i: int| crate::text::occurs_at(j, n, i);
            assert(whole.subrange(at, at + n.len()) =~= j.subrange(at, at + n.len()));
            assert(crate::text::occurs_at(whole, n, at));
        }
    }
}

/// A single layer name is a layer list.
proof fn lemma_single_layer(x: Seq<char>)
    requires
        layer_name(x),
    ensures
        layer_list(x),
{
    let names = seq![x];
    assert(names.no_duplicates());
    assert(join(names, ","@) == x);
}

/// Absorbing an item of a single layer keeps the layer field a layer list.
proof fn lemma_absorb_layers(e: ItemModel, x: ItemModel)
    requires
        layer_list(e.layer),
        layer_name(x.layer),
    ensures
        layer_list(absorb(e, x).layer),
{
    if !contains_seq(e.layer, x.layer) {
        let names = choose|names: Seq<Seq<char>>| {
            &&& names.len() > 0
            &&& names.no_duplicates()
            &&& forall|i: int| 0 <= i < names.len() ==> layer_name(#[trigger] names[i])
            &&& e.layer == #[trigger] join(names, ","@)
        };
        let more = names.push(x.layer);
        assert(!names.contains(x.layer)) by {
            if names.contains(x.layer) {
                let k = choose|k: int| 0 <= k < names.len() && names[k] == x.layer;
                lemma_join_contains(names, ","@, k);
            }
        }
        assert(more.no_duplicates()) by {
            assert forall|a: int, b: int| 0 <= a < more.len() && 0 <= b < more.len() && a != b implies more[a] != more[b] by {
                if b == names.len() {
                    assert(more[a] == names[a]);
                } else if a == names.len() {
                    assert(more[b] == names[b]);
                }
            }
        }
        assert(more.drop_last() =~= names);
        assert(join(more, ","@) == e.layer + ","@ + x.layer);
        assert forall|i: int| 0 <= i < more.len() implies layer_name(#[trigger] more[i]) by {
            if i < names.len() {
                assert(more[i] == names[i]);
            }
        }
    }
}

/// Merging items of single layers leaves every layer field a layer list.
proof fn lemma_merge_layers(s: Seq<ItemModel>)
    requires
        forall|i: int| 0 <= i < s.len() ==> layer_name(#[trigger] s[i].layer),
    ensures
        forall|i: int| 0 <= i < merge_all(s).len() ==> layer_list(#[trigger] merge_all(s)[i].layer),
    decreases s.len(),
{
    if s.len() > 0 {
        let p = s.drop_last();
        assert forall|i: int| 0 <= i < p.len() implies layer_name(#[trigger] p[i].layer) by {
            assert(p[i] == s[i]);
        }
        lemma_merge_layers(p);
        let m = merge_all(p);
        let x = s.last();
        assert(layer_name(s[s.len() - 1].layer));
        let i = first_index(m, same_key(merge_key(x.content)));
        lemma_first_index_props(m, same_key(merge_key(x.content)));
        let r = merge_all(s);
        assert(r == merge_in(m, x));
        assert forall|k: int| 0 <= k < r.len() implies layer_list(#[trigger] r[k].layer) by {
            if i < 0 {
                if k == m.len() {
                    lemma_single_layer(x.layer);
                } else {
                    assert(r[k] == m[k]);
                }
            } else if k == i {
                lemma_absorb_layers(m[i], x);
            } else {
                assert(r[k] == m[k]);
            }
        }
    }
}

/// Every item that recall returns names where it came from: its layer field lists
/// layer names ("semantic", "graph", "episodic"), none twice, joined by commas.
pub proof fn law_recall_layers(hits: Seq<HitModel>, graph: GraphMemory, episodic: EpisodicMemory, ctx: Seq<char>, max_results: int, scope: MemoryScope)
    requires
        0 <= max_results,
    ensures
        forall|i: int| 0 <= i < recall_spec(hits, graph, episodic, ctx, max_results, scope).len()
            ==> layer_list(#[trigger] recall_spec(hits, graph, episodic, ctx, max_results, scope)[i].layer),
{
    let raw = raw_items(hits, graph, episodic, ctx, scope);
    let kws = keywords_of(ctx);
    let qs = graph_queries(ctx);
    let refls = found_reflections(episodic.reflections(), qs, scope);
    let p1 = if blank(ctx) { Seq::<ItemModel>::empty() } else { hits.map_values(|h: HitModel| semantic_item(h)) };
    let p2 = keyed_entities(found_entities(graph.nodes(), qs, scope)).map_values(|e: EntityModel| entity_item(e, kws));
    let p3 = distinct_relations(found_relations(graph.nodes(), graph.edges(), qs, scope)).map_values(|r: RelationModel| relation_item(r, kws));
    let p4 = keyed_reflections(refls).map_values(|r: ReflectionModel| reflection_item(r, kws));
    assert(raw == p1 + p2 + p3 + p4);
    assert forall|i: int| 0 <= i < raw.len() implies layer_name(#[trigger] raw[i].layer) by {
        if i < p1.len() {
            assert(raw[i] == p1[i]);
        } else if i < p1.len() + p2.len() {
            assert(raw[i] == p2[i - p1.len()]);
        } else if i < p1.len() + p2.len() + p3.len() {
            assert(raw[i] == p3[i - p1.len() - p2.len()]);
        } else {
            assert(raw[i] == p4[i - p1.len() - p2.len() - p3.len()]);
        }
    }
    lemma_merge_layers(raw);
    let m = merge_all(raw);
    let b = boost_all(m);
    assert forall|i: int| 0 <= i < b.len() implies layer_list(#[trigger] b[i].layer) by {
        assert(b[i].layer == m[i].layer);
    }
    lemma_rank_members(b);
    let r = rank(b);
    assert forall|i: int| 0 <= i < r.len() implies layer_list(#[trigger] r[i].layer) by {
        assert(b.contains(r[i]));
        let j = choose|j: int| 0 <= j < b.len() && b[j] == r[i];
        assert(layer_list(b[j].layer));
    }
    if max_results < r.len() {
        assert forall|i: int| 0 <= i < r.take(max_results).len() implies layer_list(#[trigger] r.take(max_results)[i].layer) by {
            assert(r.take(max_results)[i] == r[i]);
        }
    }
}

/// A blank context recalls nothing: no semantic hit is taken, no graph or episodic query
/// is made, and the result is empty.
pub proof fn law_blank_context_recalls_nothing(hits: Seq<HitModel>, graph: GraphMemory, episodic: EpisodicMemory, ctx: Seq<char>, max_results: int, scope: MemoryScope)
    requires
        blank(ctx),
        0 <= max_results,
    ensures
        recall_spec(hits, graph, episodic, ctx, max_results, scope) == Seq::<ItemModel>::empty(),
{
    crate::text::lemma_blank_all_whitespace(ctx);
    let c = crate::recall::cleaned(ctx);
    assert forall|k: int| 0 <= k < c.len() implies crate::text::unicode_whitespace(#[trigger] c[k]) by {
        assert(c[k] == crate::recall::clean_char(ctx[k]));
    }
    crate::text::lemma_whitespace_no_words(c);
    assert(crate::recall::lowered(crate::text::words(c)).filter(|w: Seq<char>| crate::recall::keyword_ok(w)) =~= Seq::<Seq<char>>::empty());
    assert(keywords_of(ctx) =~= Seq::<Seq<char>>::empty());
    assert(graph_queries(ctx) =~= Seq::<Seq<char>>::empty());
    let raw = raw_items(hits, graph, episodic, ctx, scope);
    assert(raw =~= Seq::<ItemModel>::empty());
    assert(merge_all(raw) =~= Seq::<ItemModel>::empty());
    assert(boost_all(merge_all(raw)) =~= Seq::<ItemModel>::empty());
}

} // verus!
