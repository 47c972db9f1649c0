//! Deciding how a new relation enters the graph: added, already known, or replacing the
//! current target of an exclusive relation.
use vstd::prelude::*;
use crate::graph::{GraphMemory, Relation, RelationModel, EdgeModel, EdgeRow, GraphError, edge_views, active, superseded,
    add_relations, relation_views, utc_timestamp, retire, retire_hit};
use crate::traversal::traversable;
use crate::scope::{MemoryScope, RowScope, row_scope_of, is_reachable};
use crate::fusion::{first_index, lemma_first_index};
use crate::recall::string_views;
use crate::text::{owned, str_eq};
use crate::graph::Owner;

verus! {

/// What the decision engine did.
#[derive(Debug, Clone)]
pub struct DecisionReport {
    pub action: String,
    pub layer: String,
    pub message: String,
    pub winner_id: Option<String>,
    pub loser_id: Option<String>,
}

pub struct ReportModel {
    pub action: Seq<char>,
    pub layer: Seq<char>,
    pub message: Seq<char>,
    pub winner_id: Option<Seq<char>>,
    pub loser_id: Option<Seq<char>>,
}

impl DecisionReport {
    pub open spec fn view(&self) -> ReportModel {
        ReportModel {
            action: self.action@,
            layer: self.layer@,
            message: self.message@,
            winner_id: crate::graph::opt_view(self.winner_id),
            loser_id: crate::graph::opt_view(self.loser_id),
        }
    }
}

/// Relation types that hold one target at a time.
pub open spec fn exclusive_types() -> Seq<Seq<char>> {
    seq!["lives_in"@, "current_job"@, "spouse"@, "has_status"@, "is_born_in"@, "located_in"@]
}

/// The relation types that hold one target at a time, in order.
pub fn exclusive_relation_types() -> (r: Vec<String>)
    ensures
        string_views(r@) == exclusive_types(),
{
    let r = vec![owned("lives_in"), owned("current_job"), owned("spouse"), owned("has_status"),
        owned("is_born_in"), owned("located_in")];
    assert(string_views(r@) =~= exclusive_types());
    r
}

fn is_exclusive(t: &str) -> (b: bool)
    ensures
        b == exclusive_types().contains(t@),
{
    let b = str_eq(t, "lives_in") || str_eq(t, "current_job") || str_eq(t, "spouse") || str_eq(t, "has_status")
        || str_eq(t, "is_born_in") || str_eq(t, "located_in");
    proof {
        let x = exclusive_types();
        if b {
            if t@ == "lives_in"@ { assert(x[0] == t@); }
            if t@ == "current_job"@ { assert(x[1] == t@); }
            if t@ == "spouse"@ { assert(x[2] == t@); }
            if t@ == "has_status"@ { assert(x[3] == t@); }
            if t@ == "is_born_in"@ { assert(x[4] == t@); }
            if t@ == "located_in"@ { assert(x[5] == t@); }
        }
    }
    b
}

/// The active versions in reach of `scope` with the relation's source and type.
pub open spec fn current_hit(rel: RelationModel, scope: MemoryScope) -> spec_fn(EdgeModel) -> bool {
    |e: EdgeModel| e.from == rel.from && e.relation_type == rel.relation_type && traversable(scope)(e)
}

/// The target of the first such version in storage order.
pub open spec fn current_target(edges: Seq<EdgeModel>, rel: RelationModel, scope: MemoryScope) -> Option<Seq<char>> {
    let i = first_index(edges, current_hit(rel, scope));
    if i < 0 { None } else { Some(edges[i].to) }
}

pub open spec fn relation_id(from: Seq<char>, to: Seq<char>, ty: Seq<char>) -> Seq<char> {
    from + "-"@ + to + "-"@ + ty
}

pub open spec fn replaced_report(rel: RelationModel, old_to: Seq<char>) -> ReportModel {
    ReportModel {
        action: "delete_add"@,
        layer: "graph"@,
        message: "Superseded old graph relation '"@ + rel.from + " "@ + rel.relation_type + " "@ + old_to + "' with '"@
            + rel.from + " "@ + rel.relation_type + " "@ + rel.to + "'"@,
        winner_id: Some(relation_id(rel.from, rel.to, rel.relation_type)),
        loser_id: Some(relation_id(rel.from, old_to, rel.relation_type)),
    }
}

pub open spec fn known_report(rel: RelationModel) -> ReportModel {
    ReportModel {
        action: "no-op"@,
        layer: "graph"@,
        message: "Graph relation '"@ + rel.from + " "@ + rel.relation_type + " "@ + rel.to + "' already exists."@,
        winner_id: Some(relation_id(rel.from, rel.to, rel.relation_type)),
        loser_id: None,
    }
}

pub open spec fn added_report(rel: RelationModel) -> ReportModel {
    ReportModel {
        action: "add"@,
        layer: "graph"@,
        message: "Created new graph relation '"@ + rel.from + "->"@ + rel.to + " ("@ + rel.relation_type + ")'"@,
        winner_id: Some(relation_id(rel.from, rel.to, rel.relation_type)),
        loser_id: None,
    }
}

/// The decision for a new relation at `now`: for an exclusive type whose current target
/// differs, the current versions are retired and the relation created; for an exclusive
/// type already pointing at the target, nothing; otherwise the relation is created.  The
/// edges after, and the report (`None` when creating the relation failed).
pub open spec fn decide_relation_spec(edges: Seq<EdgeModel>, rel: RelationModel, scope: MemoryScope, now: Seq<char>)
    -> (Seq<EdgeModel>, Option<ReportModel>)
{
    let owner = row_scope_of(scope);
    let cur = current_target(edges, rel, scope);
    if exclusive_types().contains(rel.relation_type) && cur is Some {
        let old_to = cur.unwrap();
        if old_to != rel.to {
            let retired = retire(edges, rel, old_to, owner, now);
            let (after, _, ok) = add_relations(retired, seq![rel], owner, now);
            (after, if ok { Some(replaced_report(rel, old_to)) } else { None })
        } else {
            (edges, Some(known_report(rel)))
        }
    } else {
        let (after, _, ok) = add_relations(edges, seq![rel], owner, now);
        (after, if ok { Some(added_report(rel)) } else { None })
    }
}

fn relation_id_exec(from: &str, to: &str, ty: &str) -> (r: String)
    ensures
        r@ == relation_id(from@, to@, ty@),
{
    let mut s = owned(from);
    s.append("-");
    s.append(to);
    s.append("-");
    s.append(ty);
    s
}

impl GraphMemory {
    /// The target of the first active version in reach of `scope` with the relation's
    /// source and type (see `current_target`).
    pub fn current_target_of(&self, rel: &Relation, scope: &MemoryScope) -> (r: Option<String>)
        ensures
            match r {
                Some(t) => current_target(self.edges(), rel.view(), *scope) == Some(t@),
                None => current_target(self.edges(), rel.view(), *scope) is None,
            },
    {
        let rows = self.edge_rows();
        let ghost ev = self.edges();
        let mut i: usize = 0;
        while i < rows.len()
            invariant
                i <= rows.len(),
                ev == edge_views(rows@),
                ev == self.edges(),
                forall|k: int| 0 <= k < i ==> !current_hit(rel.view(), *scope)(#[trigger] ev[k]),
            decreases rows.len() - i,
        {
            let e = &rows[i];
            assert(ev[i as int] == e.view());
            if str_eq(e.from.as_str(), rel.from.as_str()) && str_eq(e.relation_type.as_str(), rel.relation_type.as_str())
                && e.valid_until.is_none() && is_reachable(scope, &e.owner) {
                proof {
                    lemma_first_index(ev, current_hit(rel.view(), *scope), i as int);
                }
                return Some(e.to.clone());
            }
            i += 1;
        }
        proof {
            lemma_first_index(ev, current_hit(rel.view(), *scope), i as int);
        }
        None
    }
}

pub struct DecisionEngine;

impl DecisionEngine {
    /// Stores a new relation at `now` as `decide_relation_spec` decides, and reports what
    /// was done; fails when the relation cannot be created (its version starting at `now`
    /// exists already).
    pub fn decide_relation_at(graph: &mut GraphMemory, rel: &Relation, scope: &MemoryScope, now: &str) -> (r: Result<DecisionReport, GraphError>)
        ensures
            ({
                let (after, report) = decide_relation_spec(old(graph).edges(), rel.view(), *scope, now@);
                &&& final(graph).edges() == after
                &&& match r {
                    Ok(x) => report == Some(x.view()),
                    Err(_) => report is None,
                }
            }),
            final(graph).nodes() == old(graph).nodes(),
    {
        let winner = relation_id_exec(rel.from.as_str(), rel.to.as_str(), rel.relation_type.as_str());
        let ghost rv = rel.view();
        if is_exclusive(rel.relation_type.as_str()) {
            match graph.current_target_of(rel, scope) {
                Some(old_to) => {
                    if !str_eq(old_to.as_str(), rel.to.as_str()) {
                        let owner = RowScope::from_scope(scope);
                        graph.retire_at(rel, &old_to, &owner, now);
                        let one = vec![rel.duplicate()];
                        assert(relation_views(one@) =~= seq![rv]);
                        let created = graph.create_relations_at(one, scope, now);
                        match created {
                            Ok(_) => {
                                let mut message = owned("Superseded old graph relation '");
                                message.append(rel.from.as_str());
                                message.append(" ");
                                message.append(rel.relation_type.as_str());
                                message.append(" ");
                                message.append(old_to.as_str());
                                message.append("' with '");
                                message.append(rel.from.as_str());
                                message.append(" ");
                                message.append(rel.relation_type.as_str());
                                message.append(" ");
                                message.append(rel.to.as_str());
                                message.append("'");
                                let loser = relation_id_exec(rel.from.as_str(), old_to.as_str(), rel.relation_type.as_str());
                                return Ok(DecisionReport {
                                    action: owned("delete_add"),
                                    layer: owned("graph"),
                                    message,
                                    winner_id: Some(winner),
                                    loser_id: Some(loser),
                                });
                            },
                            Err(e) => return Err(e),
                        }
                    } else {
                        let mut message = owned("Graph relation '");
                        message.append(rel.from.as_str());
                        message.append(" ");
                        message.append(rel.relation_type.as_str());
                        message.append(" ");
                        message.append(rel.to.as_str());
                        message.append("' already exists.");
                        return Ok(DecisionReport {
                            action: owned("no-op"),
                            layer: owned("graph"),
                            message,
                            winner_id: Some(winner),
                            loser_id: None,
                        });
                    }
                },
                None => {},
            }
        }
        let one = vec![rel.duplicate()];
        assert(relation_views(one@) =~= seq![rv]);
        let created = graph.create_relations_at(one, scope, now);
        match created {
            Ok(_) => {
                let mut message = owned("Created new graph relation '");
                message.append(rel.from.as_str());
                message.append("->");
                message.append(rel.to.as_str());
                message.append(" (");
                message.append(rel.relation_type.as_str());
                message.append(")'");
                Ok(DecisionReport {
                    action: owned("add"),
                    layer: owned("graph"),
                    message,
                    winner_id: Some(winner),
                    loser_id: None,
                })
            },
            Err(e) => Err(e),
        }
    }

    /// Stores a new relation now (see `decide_relation_at`).
    pub fn decide_relation(graph: &mut GraphMemory, rel: &Relation, scope: &MemoryScope) -> (r: Result<DecisionReport, GraphError>)
        ensures
            exists|now: Seq<char>| {
                let (after, report) = #[trigger] decide_relation_spec(old(graph).edges(), rel.view(), *scope, now);
                &&& final(graph).edges() == after
                &&& match r {
                    Ok(x) => report == Some(x.view()),
                    Err(_) => report is None,
                }
            },
            final(graph).nodes() == old(graph).nodes(),
    {
        let now = utc_timestamp();
        Self::decide_relation_at(graph, rel, scope, now.as_str())
    }
}


/// Storing a relation of an exclusive type whose current target differs makes the new
/// relation active under the scope's owner and leaves no active version from the source
/// to the old target with that type there.
pub proof fn law_exclusive_replaces(edges: Seq<EdgeModel>, rel: RelationModel, scope: MemoryScope, now: Seq<char>)
    requires
        exclusive_types().contains(rel.relation_type),
        current_target(edges, rel, scope) matches Some(old_to) && old_to != rel.to,
        decide_relation_spec(edges, rel, scope, now).1 is Some,
    ensures
        ({
            let after = decide_relation_spec(edges, rel, scope, now).0;
            let owner = row_scope_of(scope);
            let old_to = current_target(edges, rel, scope).unwrap();
            &&& crate::graph::has_active(after, rel, owner)
            &&& forall|i: int| 0 <= i < after.len() ==> !(#[trigger] retire_hit(rel, old_to, owner)(after[i]))
        }),
{
    reveal_with_fuel(add_relations, 2);
    let owner = row_scope_of(scope);
    let old_to = current_target(edges, rel, scope).unwrap();
    let retired = retire(edges, rel, old_to, owner, now);
    let s = seq![rel];
    assert(s.drop_last() =~= Seq::<RelationModel>::empty());
    assert(s.last() == rel);
    crate::graph::law_create_relation_idempotent(retired, rel, owner, now, now);
    let after = add_relations(retired, s, owner, now).0;
    assert forall|i: int| 0 <= i < retired.len() implies !(#[trigger] retire_hit(rel, old_to, owner)(retired[i])) by {
        assert(retired[i] == (if retire_hit(rel, old_to, owner)(edges[i]) { superseded(edges[i], rel.to, now) } else { edges[i] }));
    }
    assert forall|i: int| 0 <= i < after.len() implies !(#[trigger] retire_hit(rel, old_to, owner)(after[i])) by {
        if i < retired.len() {
            assert(after[i] == retired[i]);
        }
    }
}

} // verus!
