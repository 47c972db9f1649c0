//! Shared memory between agents: who may read a shared item, and how its list of target
//! agents is stored.
use vstd::prelude::*;
use crate::graph::{json_string_list, json_of_strings};
use crate::recall::{string_views, contains_string};
use crate::text::str_eq;
use crate::scope::{MemoryScope, RowScope, visible, is_visible};

verus! {

/// The list of strings that a JSON text holds (`serde_json::from_str::<Vec<String>>`),
/// or `None` when it holds none.
pub uninterp spec fn json_strings_of(text: Seq<char>) -> Option<Seq<Seq<char>>>;

/// `serde_json::from_str::<Vec<String>>`.  Reading back what `serde_json::to_string`
/// wrote for a list of strings gives that list.
#[verifier::external_body]
fn parse_string_list(text: &str) -> (r: Option<Vec<String>>)
    ensures
        match r {
            Some(v) => json_strings_of(text@) == Some(string_views(v@)),
            None => json_strings_of(text@) is None,
        },
        r is None ==> forall|items: Seq<Seq<char>>| text@ != #[trigger] json_string_list(items),
        r matches Some(v) ==> forall|items: Seq<Seq<char>>| text@ == #[trigger] json_string_list(items) ==> string_views(v@) == items,
{
    serde_json::from_str::<Vec<String>>(text).ok()
}

/// The target agents stored as `text`: its list of strings, or none when it holds none.
pub open spec fn stored_targets(text: Seq<char>) -> Seq<Seq<char>> {
    match json_strings_of(text) {
        Some(v) => v,
        None => Seq::empty(),
    }
}

/// An agent may read a shared item when it names no agent, is a target, the targets
/// include "*", or it is the item's source.
pub open spec fn shared_visible(agent: Seq<char>, source: Seq<char>, targets: Seq<Seq<char>>) -> bool {
    agent.len() == 0 || targets.contains(agent) || targets.contains("*"@) || source == agent
}

pub struct SharedMemory;

impl SharedMemory {
    /// The stored form of a list of target agents: its JSON array text.
    pub fn targets_json(targets: &Vec<String>) -> (r: String)
        ensures
            r@ == json_string_list(string_views(targets@)),
    {
        json_of_strings(targets)
    }

    /// The target agents stored as `text` (see `stored_targets`); what `targets_json`
    /// stored comes back unchanged.
    pub fn targets_of(text: &str) -> (r: Vec<String>)
        ensures
            string_views(r@) == stored_targets(text@),
            forall|items: Seq<Seq<char>>| text@ == #[trigger] json_string_list(items) ==> string_views(r@) == items,
    {
        match parse_string_list(text) {
            Some(v) => v,
            None => {
                let r: Vec<String> = Vec::new();
                assert(string_views(r@) =~= Seq::<Seq<char>>::empty());
                r
            },
        }
    }

    /// Whether `agent_id` may read an item shared by `source_agent` with `targets` (see
    /// `shared_visible`).
    pub fn visible_to(agent_id: &str, source_agent: &str, targets: &Vec<String>) -> (b: bool)
        ensures
            b == shared_visible(agent_id@, source_agent@, string_views(targets@)),
    {
        let a = crate::text::chars_of(agent_id);
        a.len() == 0 || contains_string(targets, agent_id) || contains_string(targets, "*") || str_eq(source_agent, agent_id)
    }
}

/// A stored shared item as retrieval reads it: its owner, its source agent and its
/// stored list of target agents.
pub struct SharedRow {
    pub owner: RowScope,
    pub source_agent: String,
    pub targets_text: String,
}

impl SharedRow {
    pub open spec fn view(&self) -> ((Seq<char>, Seq<char>, Seq<char>), Seq<char>, Seq<char>) {
        (self.owner.view(), self.source_agent@, self.targets_text@)
    }
}

/// A stored item is retrieved for `agent` in `scope` when `scope` sees its owner and the
/// agent may read it.
pub open spec fn retrieved(scope: MemoryScope, agent: Seq<char>, row: ((Seq<char>, Seq<char>, Seq<char>), Seq<char>, Seq<char>)) -> bool {
    visible(scope, row.0) && shared_visible(agent, row.1, stored_targets(row.2))
}

/// The positions of the rows retrieved for `agent` in `scope`, in order.
pub open spec fn retrieved_rows(scope: MemoryScope, agent: Seq<char>, rows: Seq<((Seq<char>, Seq<char>, Seq<char>), Seq<char>, Seq<char>)>) -> Seq<int>
    decreases rows.len(),
{
    if rows.len() == 0 {
        Seq::empty()
    } else {
        let p = retrieved_rows(scope, agent, rows.drop_last());
        if retrieved(scope, agent, rows.last()) { p.push(rows.len() - 1) } else { p }
    }
}

pub open spec fn shared_row_views(rows: Seq<SharedRow>) -> Seq<((Seq<char>, Seq<char>, Seq<char>), Seq<char>, Seq<char>)> {
    rows.map_values(|r: SharedRow| r.view())
}

impl SharedMemory {
    /// Retrieval of shared items: the positions of the stored rows that `agent_id` reads
    /// in `scope` (see `retrieved`), in storage order, each with its target agents.
    pub fn retrieve(agent_id: &str, scope: &MemoryScope, rows: &Vec<SharedRow>) -> (r: Vec<(usize, Vec<String>)>)
        ensures
            r@.map_values(|p: (usize, Vec<String>)| p.0 as int) == retrieved_rows(*scope, agent_id@, shared_row_views(rows@)),
            forall|k: int| 0 <= k < r.len() ==> string_views((#[trigger] r@[k]).1@) == stored_targets(rows@[r@[k].0 as int].targets_text@),
    {
        let ghost rv = shared_row_views(rows@);
        let mut out: Vec<(usize, Vec<String>)> = Vec::new();
        let mut i: usize = 0;
        while i < rows.len()
            invariant
                i <= rows.len(),
                rv == shared_row_views(rows@),
                out@.map_values(|p: (usize, Vec<String>)| p.0 as int) == retrieved_rows(*scope, agent_id@, rv.take(i as int)),
                forall|k: int| 0 <= k < out.len() ==> (#[trigger] out@[k]).0 < rows.len()
                    && string_views(out@[k].1@) == stored_targets(rows@[out@[k].0 as int].targets_text@),
            decreases rows.len() - i,
        {
            let row = &rows[i];
            let targets = Self::targets_of(row.targets_text.as_str());
            let keep = is_visible(scope, &row.owner) && Self::visible_to(agent_id, row.source_agent.as_str(), &targets);
            let ghost before = out@;
            proof {
                assert(rv.take(i + 1).drop_last() =~= rv.take(i as int));
                assert(rv.take(i + 1).last() == row.view());
            }
            if keep {
                out.push((i, targets));
                assert(out@.map_values(|p: (usize, Vec<String>)| p.0 as int)
                    =~= before.map_values(|p: (usize, Vec<String>)| p.0 as int).push(i as int));
            }
            i += 1;
        }
        assert(rv.take(rows.len() as int) =~= rv);
        out
    }
}

/// Shared retrieval returns exactly the rows that the scope sees and the agent may read,
/// each once, in storage order.  The agent may read a row when it names no agent, when
/// the row's targets include it or "*", or when it is the row's source; a target list
/// that does not parse reads as empty.
pub proof fn law_shared_retrieval(scope: MemoryScope, agent: Seq<char>, rows: Seq<((Seq<char>, Seq<char>, Seq<char>), Seq<char>, Seq<char>)>)
    ensures
        ({
            let r = retrieved_rows(scope, agent, rows);
            &&& forall|a: int, b: int| 0 <= a < b < r.len() ==> r[a] < r[b]
            &&& forall|i: int| #[trigger] r.contains(i) <==> 0 <= i < rows.len() && retrieved(scope, agent, rows[i])
        }),
        forall|row: ((Seq<char>, Seq<char>, Seq<char>), Seq<char>, Seq<char>)| #[trigger] retrieved(scope, agent, row) <==> {
            let targets = stored_targets(row.2);
            &&& visible(scope, row.0)
            &&& (agent.len() == 0 || targets.contains(agent) || targets.contains("*"@) || row.1 == agent)
        },
        forall|text: Seq<char>| json_strings_of(text) is None ==> #[trigger] stored_targets(text) == Seq::<Seq<char>>::empty(),
    decreases rows.len(),
{
    if rows.len() > 0 {
        let d = rows.drop_last();
        law_shared_retrieval(scope, agent, d);
        let p = retrieved_rows(scope, agent, d);
        let r = retrieved_rows(scope, agent, rows);
        assert forall|k: int| 0 <= k < p.len() implies 0 <= #[trigger] p[k] < d.len() by {
            assert(p.contains(p[k]));
        }
        assert forall|a: int, b: int| 0 <= a < b < r.len() implies r[a] < r[b] by {
            if b == p.len() {
                assert(r[a] == p[a]);
                assert(p.contains(p[a]));
            }
        }
        assert forall|i: int| #[trigger] r.contains(i) <==> 0 <= i < rows.len() && retrieved(scope, agent, rows[i]) by {
            if r.contains(i) {
                let k = choose|k: int| 0 <= k < r.len() && r[k] == i;
                if k < p.len() {
                    assert(p.contains(i));
                    assert(rows[i] == d[i]);
                }
            }
            if 0 <= i < rows.len() && retrieved(scope, agent, rows[i]) {
                if i < d.len() {
                    assert(rows[i] == d[i]);
                    assert(p.contains(i));
                    let k = choose|k: int| 0 <= k < p.len() && p[k] == i;
                    assert(r[k] == i);
                } else {
                    assert(r[p.len() as int] == i);
                }
            }
        }
    }
}

} // verus!
