//! Working memory: short-lived key/value entries with a time-to-live, keyed by
//! scope.  Entries read often enough are handed to the semantic layer when they
//! expire or when promoted explicitly.
use vstd::prelude::*;
use crate::scope::{MemoryScope, part, unpart, wildcard, part_string, is_wildcard, opt_view};
use crate::text::owned;

verus! {

/// One working-memory value.  `created_at` is a reading of the seconds clock.
#[derive(Debug, Clone)]
pub struct WorkingEntry {
    pub value: String,
    pub created_at: u64,
    pub ttl_seconds: u64,
    pub access_count: usize,
}

/// The mathematical content of an entry.
pub struct EntryModel {
    pub value: Seq<char>,
    pub created_at: u64,
    pub ttl_seconds: u64,
    pub access_count: usize,
}

impl WorkingEntry {
    pub open spec fn view(&self) -> EntryModel {
        EntryModel {
            value: self.value@,
            created_at: self.created_at,
            ttl_seconds: self.ttl_seconds,
            access_count: self.access_count,
        }
    }

    fn duplicate(&self) -> (r: Self)
        ensures
            r == *self,
    {
        WorkingEntry {
            value: self.value.clone(),
            created_at: self.created_at,
            ttl_seconds: self.ttl_seconds,
            access_count: self.access_count,
        }
    }
}

/// Seconds elapsed since `created_at` at clock reading `now` (zero if the clock went back).
pub open spec fn elapsed(created_at: u64, now: u64) -> int {
    if now >= created_at {
        now - created_at
    } else {
        0
    }
}

/// An entry is expired once its age reaches its time-to-live.
pub open spec fn expired(e: EntryModel, now: u64) -> bool {
    elapsed(e.created_at, now) >= e.ttl_seconds
}

/// What reading scoped key `k` at clock reading `now` does to entries `m`, leaving `m2`
/// and reading `r`: an absent key reads `None` and changes nothing; an expired entry is
/// removed and reads `None`; a live entry reads its value and has its access count raised
/// by one (saturating).
pub open spec fn read_outcome(m: Map<Seq<char>, EntryModel>, m2: Map<Seq<char>, EntryModel>, r: Option<Seq<char>>,
    k: Seq<char>, now: u64) -> bool
{
    if !m.contains_key(k) {
        r is None && m2 == m
    } else if expired(m[k], now) {
        r is None && m2 == m.remove(k)
    } else {
        &&& r == Some(m[k].value)
        &&& m2 == m.insert(k, EntryModel {
            access_count: if m[k].access_count == usize::MAX { usize::MAX } else { (m[k].access_count + 1) as usize },
            ..m[k]
        })
    }
}

/// What evicting at clock reading `now` does to entries `m`: the entries live at `now`
/// stay (`m2`) and exactly those expired at `now` are removed (`gone`).
pub open spec fn eviction_outcome(m: Map<Seq<char>, EntryModel>, m2: Map<Seq<char>, EntryModel>,
    gone: Map<Seq<char>, EntryModel>, now: u64) -> bool
{
    &&& m2 == m.restrict(m.dom().filter(|k: Seq<char>| !expired(m[k], now)))
    &&& gone == m.restrict(m.dom().filter(|k: Seq<char>| expired(m[k], now)))
}

/// What promoting `key` in `scope` does to entries `m`: the entry under its scoped key is
/// removed, expired or not, and the text to store in semantic memory is returned; with no
/// such entry nothing changes and there is no text.
pub open spec fn promotion_outcome(m: Map<Seq<char>, EntryModel>, key: Seq<char>, scope: MemoryScope) -> (Map<Seq<char>, EntryModel>, Option<Seq<char>>) {
    let k = scoped_key(key, scope);
    if m.contains_key(k) {
        (m.remove(k), Some(promotion_text(key, m[k].value)))
    } else {
        (m, None)
    }
}

/// `user:session:agent:key`, each absent scope component written as `*`.
pub open spec fn scoped_key(key: Seq<char>, scope: MemoryScope) -> Seq<char> {
    part(scope.user_id) + seq![':'] + part(scope.session_id) + seq![':'] + part(scope.agent_id)
        + seq![':'] + key
}

/// Index of the first occurrence of `c` in `s`, or -1.
pub open spec fn find_char(s: Seq<char>, c: char) -> int
    decreases s.len(),
{
    if s.len() == 0 {
        -1
    } else if s[0] == c {
        0
    } else {
        let r = find_char(s.drop_first(), c);
        if r < 0 {
            -1
        } else {
            r + 1
        }
    }
}

/// Splitting at the first occurrence of `c`.
pub open spec fn split_once(s: Seq<char>, c: char) -> Option<(Seq<char>, Seq<char>)> {
    let i = find_char(s, c);
    if i < 0 {
        None
    } else {
        Some((s.take(i), s.skip(i + 1)))
    }
}

/// `splitn(4, ':')` when it yields four parts.
pub open spec fn split4(s: Seq<char>) -> Option<(Seq<char>, Seq<char>, Seq<char>, Seq<char>)> {
    match split_once(s, ':') {
        None => None,
        Some((a, r1)) => match split_once(r1, ':') {
            None => None,
            Some((b, r2)) => match split_once(r2, ':') {
                None => None,
                Some((c, d)) => Some((a, b, c, d)),
            },
        },
    }
}

/// The scope and key that a scoped key names, when it has four parts.
pub open spec fn parse_scoped(s: Seq<char>) -> Option<(Option<Seq<char>>, Option<Seq<char>>, Option<Seq<char>>, Seq<char>)> {
    match split4(s) {
        None => None,
        Some((a, b, c, d)) => Some((unpart(a), unpart(b), unpart(c), d)),
    }
}

/// The text stored in semantic memory when an entry is promoted.
pub open spec fn promotion_text(key: Seq<char>, value: Seq<char>) -> Seq<char> {
    "Ephemeral working memory under key '"@ + key + "' was promoted: "@ + value
}

/// Entries with distinct keys, as a map from key to content.
pub open spec fn to_map(s: Seq<(String, WorkingEntry)>) -> Map<Seq<char>, EntryModel>
    decreases s.len(),
{
    if s.len() == 0 {
        Map::empty()
    } else {
        to_map(s.drop_last()).insert(s.last().0@, s.last().1.view())
    }
}

pub open spec fn keys_distinct(s: Seq<(String, WorkingEntry)>) -> bool {
    forall|i: int, j: int| 0 <= i < j < s.len() ==> s[i].0@ != s[j].0@
}

proof fn lemma_to_map_lookup(s: Seq<(String, WorkingEntry)>)
    requires
        keys_distinct(s),
    ensures
        forall|i: int| 0 <= i < s.len() ==> #[trigger] to_map(s).contains_key(s[i].0@)
            && to_map(s)[s[i].0@] == s[i].1.view(),
        forall|k: Seq<char>| #[trigger] to_map(s).contains_key(k) ==> exists|i: int| 0 <= i < s.len() && s[i].0@ == k,
    decreases s.len(),
{
    if s.len() > 0 {
        let p = s.drop_last();
        let x = s.last();
        assert(keys_distinct(p));
        lemma_to_map_lookup(p);
        assert(to_map(s) == to_map(p).insert(x.0@, x.1.view()));
        assert forall|i: int| 0 <= i < s.len() implies #[trigger] to_map(s).contains_key(s[i].0@)
            && to_map(s)[s[i].0@] == s[i].1.view() by {
            if i < s.len() - 1 {
                assert(s[i] == p[i]);
                assert(s[i].0@ != x.0@);
                assert(to_map(p).contains_key(p[i].0@));
            }
        }
        assert forall|k: Seq<char>| #[trigger] to_map(s).contains_key(k) implies exists|i: int| 0 <= i < s.len() && s[i].0@ == k by {
            if k == x.0@ {
                assert(s[s.len() - 1].0@ == k);
            } else {
                assert(to_map(p).contains_key(k));
                let i = choose|i: int| 0 <= i < p.len() && p[i].0@ == k;
                assert(s[i].0@ == k);
            }
        }
    }
}

/// Entries with distinct keys make a finite map with one key per entry.
proof fn lemma_to_map_len(s: Seq<(String, WorkingEntry)>)
    requires
        keys_distinct(s),
    ensures
        to_map(s).dom().finite(),
        to_map(s).dom().len() == s.len(),
    decreases s.len(),
{
    if s.len() > 0 {
        let p = s.drop_last();
        assert(keys_distinct(p));
        lemma_to_map_len(p);
        lemma_to_map_lookup(p);
        assert(!to_map(p).contains_key(s.last().0@)) by {
            if to_map(p).contains_key(s.last().0@) {
                let j = choose|j: int| 0 <= j < p.len() && p[j].0@ == s.last().0@;
                assert(s[j].0@ == s[s.len() - 1].0@);
            }
        }
        assert(to_map(s).dom() =~= to_map(p).dom().insert(s.last().0@));
    }
}

proof fn lemma_to_map_update(s: Seq<(String, WorkingEntry)>, i: int, e: WorkingEntry)
    requires
        keys_distinct(s),
        0 <= i < s.len(),
    ensures
        keys_distinct(s.update(i, (s[i].0, e))),
        to_map(s.update(i, (s[i].0, e))) == to_map(s).insert(s[i].0@, e.view()),
    decreases s.len(),
{
    let t = s.update(i, (s[i].0, e));
    assert(keys_distinct(t)) by {
        assert forall|a: int, b: int| 0 <= a < b < t.len() implies t[a].0@ != t[b].0@ by {
            assert(t[a].0 == s[a].0 && t[b].0 == s[b].0);
        }
    }
    if i == s.len() - 1 {
        assert(t.drop_last() =~= s.drop_last());
        assert(to_map(t) =~= to_map(s).insert(s[i].0@, e.view()));
    } else {
        assert(t.drop_last() =~= s.drop_last().update(i, (s[i].0, e)));
        assert(keys_distinct(s.drop_last()));
        lemma_to_map_update(s.drop_last(), i, e);
        assert(s[i].0@ != s.last().0@);
        assert(to_map(t) =~= to_map(s).insert(s[i].0@, e.view()));
    }
}

proof fn lemma_to_map_remove(s: Seq<(String, WorkingEntry)>, i: int)
    requires
        keys_distinct(s),
        0 <= i < s.len(),
    ensures
        keys_distinct(s.remove(i)),
        to_map(s.remove(i)) == to_map(s).remove(s[i].0@),
    decreases s.len(),
{
    let t = s.remove(i);
    assert(keys_distinct(t)) by {
        assert forall|a: int, b: int| 0 <= a < b < t.len() implies t[a].0@ != t[b].0@ by {
            let a2 = if a < i { a } else { a + 1 };
            let b2 = if b < i { b } else { b + 1 };
            assert(t[a] == s[a2] && t[b] == s[b2]);
        }
    }
    lemma_to_map_lookup(s);
    if i == s.len() - 1 {
        assert(t =~= s.drop_last());
        assert(keys_distinct(s.drop_last()));
        lemma_to_map_lookup(s.drop_last());
        assert(!to_map(s.drop_last()).contains_key(s[i].0@)) by {
            if to_map(s.drop_last()).contains_key(s[i].0@) {
                let j = choose|j: int| 0 <= j < s.drop_last().len() && s.drop_last()[j].0@ == s[i].0@;
                assert(s[j].0@ == s[i].0@);
            }
        }
        assert(to_map(t) =~= to_map(s).remove(s[i].0@));
    } else {
        assert(t.drop_last() =~= s.drop_last().remove(i));
        assert(t.last() == s.last());
        assert(keys_distinct(s.drop_last()));
        lemma_to_map_remove(s.drop_last(), i);
        assert(s[i].0@ != s.last().0@);
        assert(to_map(t) =~= to_map(s).remove(s[i].0@));
    }
}

/// The session key/value store.
pub struct WorkingMemory {
    session_data: Vec<(String, WorkingEntry)>,
    default_ttl: u64,
}

/// What an eviction pass did: how many entries it removed, and for each removed entry
/// read at least three times, the scope and text to store in semantic memory.
pub struct EvictionReport {
    pub evicted_count: usize,
    pub evicted: Vec<(String, WorkingEntry)>,
    pub promotions: Vec<(MemoryScope, String)>,
}

/// Reads the seconds clock.
#[verifier::external_body]
fn clock_seconds() -> u64 {
    match std::time::SystemTime::now().duration_since(std::time::UNIX_EPOCH) {
        Ok(d) => d.as_secs(),
        Err(_) => 0,
    }
}

impl WorkingMemory {
    #[verifier::type_invariant]
    spec fn inv(self) -> bool {
        keys_distinct(self.session_data@)
    }

    /// The entries, by scoped key.
    pub closed spec fn view(&self) -> Map<Seq<char>, EntryModel> {
        to_map(self.session_data@)
    }

    /// The time-to-live given to entries set without one.
    pub closed spec fn spec_default_ttl(&self) -> u64 {
        self.default_ttl
    }

    /// An empty store.
    pub fn new(default_ttl: u64) -> (r: Self)
        ensures
            r.view() == Map::<Seq<char>, EntryModel>::empty(),
            r.spec_default_ttl() == default_ttl,
    {
        WorkingMemory { session_data: Vec::new(), default_ttl }
    }

    fn take_data(&mut self) -> (r: Vec<(String, WorkingEntry)>)
        ensures
            r@ == old(self).session_data@,
            keys_distinct(r@),
            final(self).default_ttl == old(self).default_ttl,
    {
        proof {
            use_type_invariant(&*self);
        }
        let mut data: Vec<(String, WorkingEntry)> = Vec::new();
        std::mem::swap(&mut data, &mut self.session_data);
        data
    }

    /// Stores `value` under `key` in `scope`, created at clock reading `now`, replacing
    /// any entry under the same key; `ttl` defaults to the store's default.
    pub fn set_at(&mut self, key: &str, value: &str, ttl: Option<u64>, scope: &MemoryScope, now: u64)
        ensures
            final(self).view() == old(self).view().insert(
                scoped_key(key@, *scope),
                EntryModel {
                    value: value@,
                    created_at: now,
                    ttl_seconds: match ttl {
                        Some(t) => t,
                        None => old(self).spec_default_ttl(),
                    },
                    access_count: 0,
                },
            ),
            final(self).spec_default_ttl() == old(self).spec_default_ttl(),
    {
        let k = get_scoped_key(key, scope);
        let ttl_seconds = match ttl {
            Some(t) => t,
            None => self.default_ttl,
        };
        let entry = WorkingEntry { value: owned(value), created_at: now, ttl_seconds, access_count: 0 };
        let mut data = self.take_data();
        let pos = position(&data, &k);
        let ghost old_data = data@;
        match pos {
            Some(i) => {
                proof {
                    lemma_to_map_update(old_data, i as int, entry);
                }
                let kk = data[i].0.clone();
                data.set(i, (kk, entry));
                assert(data@ =~= old_data.update(i as int, (old_data[i as int].0, entry)));
            }
            None => {
                assert(keys_distinct(old_data.push((k, entry)))) by {
                    assert forall|a: int, b: int| 0 <= a < b < old_data.len() + 1 implies old_data.push((k, entry))[a].0@ != old_data.push((k, entry))[b].0@ by {
                        if b == old_data.len() {
                            assert(old_data[a].0@ != k@);
                        } else {
                            assert(old_data[a] == old_data.push((k, entry))[a]);
                        }
                    }
                }
                data.push((k, entry));
                assert(data@.drop_last() =~= old_data);
            }
        }
        self.session_data = data;
    }

    /// Stores `value` under `key` in `scope`, created now: whatever the clock reads,
    /// the key then holds `value` with the given (or default) time-to-live and no
    /// accesses, and every other key is unchanged.
    pub fn set(&mut self, key: &str, value: &str, ttl: Option<u64>, scope: &MemoryScope)
        ensures
            final(self).view().contains_key(scoped_key(key@, *scope)),
            final(self).view()[scoped_key(key@, *scope)].value == value@,
            final(self).view()[scoped_key(key@, *scope)].ttl_seconds == match ttl {
                Some(t) => t,
                None => old(self).spec_default_ttl(),
            },
            final(self).view()[scoped_key(key@, *scope)].access_count == 0,
            final(self).view().remove(scoped_key(key@, *scope)) == old(self).view().remove(scoped_key(key@, *scope)),
            final(self).spec_default_ttl() == old(self).spec_default_ttl(),
    {
        let now = clock_seconds();
        self.set_at(key, value, ttl, scope, now);
        proof {
            let k = scoped_key(key@, *scope);
            assert(final(self).view().remove(k) =~= old(self).view().remove(k));
        }
    }

    /// Reads `key` in `scope` at clock reading `now`.  An absent key reads `None`; an
    /// expired entry is removed and reads `None`; a live entry has its access count
    /// raised by one and reads its value.
    pub fn get_at(&mut self, key: &str, scope: &MemoryScope, now: u64) -> (r: Option<String>)
        ensures
            ({
                let k = scoped_key(key@, *scope);
                let m = old(self).view();
                if !m.contains_key(k) {
                    r is None && final(self).view() == m
                } else if expired(m[k], now) {
                    r is None && final(self).view() == m.remove(k)
                } else {
                    &&& r matches Some(v) && v@ == m[k].value
                    &&& final(self).view() == m.insert(k, EntryModel {
                        access_count: if m[k].access_count == usize::MAX { usize::MAX } else { (m[k].access_count + 1) as usize },
                        ..m[k]
                    })
                }
            }),
            final(self).spec_default_ttl() == old(self).spec_default_ttl(),
    {
        let k = get_scoped_key(key, scope);
        let mut data = self.take_data();
        let ghost old_data = data@;
        proof {
            lemma_to_map_lookup(old_data);
        }
        let i = match position(&data, &k) {
            Some(i) => i,
            None => {
                assert(!to_map(old_data).contains_key(k@)) by {
                    if to_map(old_data).contains_key(k@) {
                        let j = choose|j: int| 0 <= j < old_data.len() && old_data[j].0@ == k@;
                    }
                }
                self.session_data = data;
                return None;
            }
        };
        let e = data[i].1.duplicate();
        let age = if now >= e.created_at { now - e.created_at } else { 0 };
        if age >= e.ttl_seconds {
            proof {
                lemma_to_map_remove(old_data, i as int);
            }
            data.remove(i);
            self.session_data = data;
            return None;
        }
        let value = e.value.clone();
        let ne = WorkingEntry {
            value: e.value,
            created_at: e.created_at,
            ttl_seconds: e.ttl_seconds,
            access_count: e.access_count.saturating_add(1),
        };
        proof {
            lemma_to_map_update(old_data, i as int, ne);
            assert(ne.view() == EntryModel {
                access_count: ne.access_count,
                ..old_data[i as int].1.view()
            });
        }
        let kk = data[i].0.clone();
        data.set(i, (kk, ne));
        assert(data@ =~= old_data.update(i as int, (old_data[i as int].0, ne)));
        self.session_data = data;
        Some(value)
    }

    /// Reads `key` in `scope` now: what `get_at` does at the clock's reading (see
    /// `read_outcome`).  Whatever the clock reads, a key that is not stored reads `None`,
    /// and a value read is the one stored.
    pub fn get(&mut self, key: &str, scope: &MemoryScope) -> (r: Option<String>)
        ensures
            exists|now: u64| #[trigger] read_outcome(old(self).view(), final(self).view(), opt_view(r), scoped_key(key@, *scope), now),
            !old(self).view().contains_key(scoped_key(key@, *scope)) ==> r is None && final(self).view() == old(self).view(),
            r matches Some(v) ==> old(self).view().contains_key(scoped_key(key@, *scope))
                && v@ == old(self).view()[scoped_key(key@, *scope)].value,
            final(self).spec_default_ttl() == old(self).spec_default_ttl(),
    {
        let now = clock_seconds();
        let r = self.get_at(key, scope, now);
        assert(read_outcome(old(self).view(), self.view(), opt_view(r), scoped_key(key@, *scope), now));
        r
    }

    /// Removes every entry expired at clock reading `now` and returns them, in storage order.
    pub fn remove_expired_at(&mut self, now: u64) -> (r: Vec<(String, WorkingEntry)>)
        ensures
            final(self).view() == old(self).view().restrict(
                old(self).view().dom().filter(|k: Seq<char>| !expired(old(self).view()[k], now)),
            ),
            keys_distinct(r@),
            to_map(r@) == old(self).view().restrict(
                old(self).view().dom().filter(|k: Seq<char>| expired(old(self).view()[k], now)),
            ),
            final(self).spec_default_ttl() == old(self).spec_default_ttl(),
    {
        let data = self.take_data();
        let ghost old_data = data@;
        let mut kept: Vec<(String, WorkingEntry)> = Vec::new();
        let mut gone: Vec<(String, WorkingEntry)> = Vec::new();
        let mut i: usize = 0;
        while i < data.len()
            invariant
                i <= data.len(),
                data@ == old_data,
                keys_distinct(old_data),
                kept@ == old_data.take(i as int).filter(lift(live(now))),
                gone@ == old_data.take(i as int).filter(lift(dead(now))),
            decreases data.len() - i,
        {
            let e = data[i].1.duplicate();
            let kk = data[i].0.clone();
            let age = if now >= e.created_at { now - e.created_at } else { 0 };
            proof {
                assert(old_data.take(i + 1).drop_last() =~= old_data.take(i as int));
                assert(old_data.take(i + 1).last() == old_data[i as int]);
                reveal_with_fuel(Seq::<_>::filter, 1);
            }
            if age >= e.ttl_seconds {
                gone.push((kk, e));
                assert(gone@ =~= old_data.take(i + 1).filter(lift(dead(now))));
                assert(kept@ =~= old_data.take(i + 1).filter(lift(live(now))));
            } else {
                kept.push((kk, e));
                assert(gone@ =~= old_data.take(i + 1).filter(lift(dead(now))));
                assert(kept@ =~= old_data.take(i + 1).filter(lift(live(now))));
            }
            i += 1;
        }
        proof {
            assert(old_data.take(old_data.len() as int) =~= old_data);
            lemma_to_map_filter(old_data, live(now));
            lemma_to_map_filter(old_data, dead(now));
            let m = to_map(old_data);
            assert(to_map(kept@) =~= m.restrict(m.dom().filter(|k: Seq<char>| !expired(m[k], now))));
            assert(to_map(gone@) =~= m.restrict(m.dom().filter(|k: Seq<char>| expired(m[k], now))));
        }
        self.session_data = kept;
        gone
    }

    /// Removes every entry expired at clock reading `now`.  The report lists the removed
    /// entries and, for each of them read at least three times, the scope and text to store
    /// in semantic memory.
    pub fn evict_expired_at(&mut self, now: u64) -> (r: EvictionReport)
        ensures
            final(self).view() == old(self).view().restrict(
                old(self).view().dom().filter(|k: Seq<char>| !expired(old(self).view()[k], now)),
            ),
            keys_distinct(r.evicted@),
            r.evicted_count == r.evicted.len(),
            r.evicted_count == old(self).view().dom().filter(|k: Seq<char>| expired(old(self).view()[k], now)).len(),
            to_map(r.evicted@) == old(self).view().restrict(
                old(self).view().dom().filter(|k: Seq<char>| expired(old(self).view()[k], now)),
            ),
            r.promotions@.map_values(|p: (MemoryScope, String)| promotion_view(p)) == r.evicted@.filter_map(|kv: (String, WorkingEntry)| promotion_of(kv)),
            final(self).spec_default_ttl() == old(self).spec_default_ttl(),
    {
        let evicted = self.remove_expired_at(now);
        let mut promotions: Vec<(MemoryScope, String)> = Vec::new();
        let mut i: usize = 0;
        while i < evicted.len()
            invariant
                i <= evicted.len(),
                promotions@.map_values(|p: (MemoryScope, String)| promotion_view(p)) == evicted@.take(i as int).filter_map(|kv: (String, WorkingEntry)| promotion_of(kv)),
            decreases evicted.len() - i,
        {
            let p = promotion_for(evicted[i].0.as_str(), &evicted[i].1);
            proof {
                assert(evicted@.take(i + 1).drop_last() =~= evicted@.take(i as int));
                assert(evicted@.take(i + 1).last() == evicted@[i as int]);
            }
            match p {
                Some(p) => {
                    promotions.push(p);
                    assert(promotions@.map_values(|p: (MemoryScope, String)| promotion_view(p)) =~= evicted@.take(i + 1).filter_map(|kv: (String, WorkingEntry)| promotion_of(kv)));
                }
                None => {
                    assert(promotions@.map_values(|p: (MemoryScope, String)| promotion_view(p)) =~= evicted@.take(i + 1).filter_map(|kv: (String, WorkingEntry)| promotion_of(kv)));
                }
            }
            i += 1;
        }
        assert(evicted@.take(evicted.len() as int) =~= evicted@);
        proof {
            lemma_to_map_len(evicted@);
            let m = old(self).view();
            assert(to_map(evicted@).dom() =~= m.dom().filter(|k: Seq<char>| expired(m[k], now)));
        }
        EvictionReport { evicted_count: evicted.len(), evicted, promotions }
    }

    /// Removes the entries that have expired by now: what `evict_expired_at` does at the
    /// clock's reading (see `eviction_outcome`).  Whatever the clock reads, every entry
    /// left is unchanged, the removed ones are listed, and the count is their number.
    pub fn evict_expired(&mut self) -> (r: EvictionReport)
        ensures
            exists|now: u64| #[trigger] eviction_outcome(old(self).view(), final(self).view(), to_map(r.evicted@), now),
            forall|k: Seq<char>| #[trigger] final(self).view().contains_key(k) ==> old(self).view().contains_key(k) && final(self).view()[k] == old(self).view()[k],
            keys_distinct(r.evicted@),
            r.evicted_count == to_map(r.evicted@).dom().len(),
            forall|k: Seq<char>| #[trigger] to_map(r.evicted@).contains_key(k) ==> old(self).view().contains_key(k) && !final(self).view().contains_key(k) && to_map(r.evicted@)[k] == old(self).view()[k],
            forall|k: Seq<char>| #[trigger] old(self).view().contains_key(k) ==> final(self).view().contains_key(k) || to_map(r.evicted@).contains_key(k),
            r.evicted_count == r.evicted.len(),
            r.promotions@.map_values(|p: (MemoryScope, String)| promotion_view(p)) == r.evicted@.filter_map(|kv: (String, WorkingEntry)| promotion_of(kv)),
            final(self).spec_default_ttl() == old(self).spec_default_ttl(),
    {
        let now = clock_seconds();
        let r = self.evict_expired_at(now);
        assert(eviction_outcome(old(self).view(), self.view(), to_map(r.evicted@), now));
        proof {
            lemma_to_map_len(r.evicted@);
        }
        r
    }

    /// Removes the entry under `key` in `scope`, expired or not, and returns the text to
    /// store in semantic memory for it; `None` when there is no such entry.
    pub fn promote_to_semantic(&mut self, key: &str, scope: &MemoryScope) -> (r: Option<String>)
        ensures
            final(self).view() == promotion_outcome(old(self).view(), key@, *scope).0,
            match r {
                Some(t) => promotion_outcome(old(self).view(), key@, *scope).1 == Some(t@),
                None => promotion_outcome(old(self).view(), key@, *scope).1 is None,
            },
            final(self).spec_default_ttl() == old(self).spec_default_ttl(),
    {
        let k = get_scoped_key(key, scope);
        let mut data = self.take_data();
        let ghost old_data = data@;
        proof {
            lemma_to_map_lookup(old_data);
        }
        match position(&data, &k) {
            Some(i) => {
                proof {
                    lemma_to_map_remove(old_data, i as int);
                }
                let (_, e) = data.remove(i);
                self.session_data = data;
                Some(promotion_message(key, e.value.as_str()))
            }
            None => {
                assert(!to_map(old_data).contains_key(k@)) by {
                    if to_map(old_data).contains_key(k@) {
                        let j = choose|j: int| 0 <= j < old_data.len() && old_data[j].0@ == k@;
                    }
                }
                assert(to_map(old_data).remove(k@) =~= to_map(old_data));
                self.session_data = data;
                None
            }
        }
    }
}

/// Lifts a predicate on entry contents to stored pairs.
pub open spec fn lift(f: spec_fn(EntryModel) -> bool) -> spec_fn((String, WorkingEntry)) -> bool {
    |e: (String, WorkingEntry)| f(e.1.view())
}

/// Entries still live at `now`.
pub open spec fn live(now: u64) -> spec_fn(EntryModel) -> bool {
    |e: EntryModel| !expired(e, now)
}

/// Entries expired at `now`.
pub open spec fn dead(now: u64) -> spec_fn(EntryModel) -> bool {
    |e: EntryModel| expired(e, now)
}

proof fn lemma_to_map_filter(s: Seq<(String, WorkingEntry)>, f: spec_fn(EntryModel) -> bool)
    requires
        keys_distinct(s),
    ensures
        keys_distinct(s.filter(lift(f))),
        forall|k: Seq<char>| #[trigger] to_map(s.filter(lift(f))).contains_key(k)
            <==> (to_map(s).contains_key(k) && f(to_map(s)[k])),
        forall|k: Seq<char>| #[trigger] to_map(s.filter(lift(f))).contains_key(k)
            ==> to_map(s.filter(lift(f)))[k] == to_map(s)[k],
    decreases s.len(),
{
    reveal_with_fuel(Seq::<_>::filter, 1);
    if s.len() > 0 {
        let p = s.drop_last();
        let x = s.last();
        assert(keys_distinct(p));
        lemma_to_map_filter(p, f);
        lemma_to_map_lookup(s);
        lemma_to_map_lookup(p);
        let fp = p.filter(lift(f));
        lemma_to_map_lookup(fp);
        assert(!to_map(p).contains_key(x.0@)) by {
            if to_map(p).contains_key(x.0@) {
                let j = choose|j: int| 0 <= j < p.len() && p[j].0@ == x.0@;
                assert(s[j].0@ == s[s.len() - 1].0@);
            }
        }
        assert(to_map(s) == to_map(p).insert(x.0@, x.1.view()));
        if lift(f)(x) {
            assert(s.filter(lift(f)) == fp.push(x));
            assert(fp.push(x).drop_last() =~= fp);
            assert(to_map(fp.push(x)) == to_map(fp).insert(x.0@, x.1.view()));
            assert(keys_distinct(fp.push(x))) by {
                assert forall|a: int, b: int| 0 <= a < b < fp.push(x).len() implies fp.push(x)[a].0@ != fp.push(x)[b].0@ by {
                    if b == fp.len() {
                        assert(to_map(fp).contains_key(fp[a].0@));
                    } else {
                        assert(fp.push(x)[a] == fp[a] && fp.push(x)[b] == fp[b]);
                    }
                }
            }
        } else {
            assert(s.filter(lift(f)) == fp);
            assert(!f(x.1.view()));
        }
    }
}


/// The view of a scope: its three optional components.
pub open spec fn scope_model(s: MemoryScope) -> (Option<Seq<char>>, Option<Seq<char>>, Option<Seq<char>>) {
    (opt_view(s.user_id), opt_view(s.session_id), opt_view(s.agent_id))
}

/// What an expired entry under scoped key `k` hands to semantic memory: nothing unless it
/// was read at least three times and its key has four parts; then the scope and key it
/// names, and the promotion text.
pub open spec fn promotion_model(k: Seq<char>, e: EntryModel) -> Option<((Option<Seq<char>>, Option<Seq<char>>, Option<Seq<char>>), Seq<char>)> {
    if e.access_count >= 3 {
        match parse_scoped(k) {
            Some((u, s, a, key)) => Some(((u, s, a), promotion_text(key, e.value))),
            None => None,
        }
    } else {
        None
    }
}

/// The promotion of one stored pair.
pub open spec fn promotion_of(kv: (String, WorkingEntry)) -> Option<((Option<Seq<char>>, Option<Seq<char>>, Option<Seq<char>>), Seq<char>)> {
    promotion_model(kv.0@, kv.1.view())
}

/// The view of a promotion request.
pub open spec fn promotion_view(p: (MemoryScope, String)) -> ((Option<Seq<char>>, Option<Seq<char>>, Option<Seq<char>>), Seq<char>) {
    (scope_model(p.0), p.1@)
}

proof fn lemma_find_char(t: Seq<char>, c: char, j: int)
    requires
        0 <= j <= t.len(),
        forall|k: int| 0 <= k < j ==> t[k] != c,
    ensures
        j < t.len() && t[j] == c ==> find_char(t, c) == j,
        j == t.len() ==> find_char(t, c) == -1,
    decreases j,
{
    if j > 0 {
        lemma_find_char(t.drop_first(), c, j - 1);
    }
}

proof fn lemma_find_char_concat(a: Seq<char>, c: char, b: Seq<char>)
    requires
        forall|k: int| 0 <= k < a.len() ==> a[k] != c,
    ensures
        find_char(a + seq![c] + b, c) == a.len(),
{
    let t = a + seq![c] + b;
    assert forall|k: int| 0 <= k < a.len() implies t[k] != c by {
        assert(t[k] == a[k]);
    }
    assert(t[a.len() as int] == c);
    lemma_find_char(t, c, a.len() as int);
}

/// Splits a scoped key back into its scope and key (`splitn(4, ':')`, `*` read as absent).
pub fn parse_scoped_key(s: &str) -> (r: Option<(MemoryScope, String)>)
    ensures
        match r {
            Some((scope, key)) => parse_scoped(s@) == Some((opt_view(scope.user_id), opt_view(scope.session_id), opt_view(scope.agent_id), key@)),
            None => parse_scoped(s@) is None,
        },
{
    let v = crate::text::chars_of(s);
    let i1 = match find_from(&v, ':', 0) {
        Some(i) => i,
        None => {
            proof {
                lemma_find_char(v@, ':', v@.len() as int);
            }
            return None;
        }
    };
    proof {
        lemma_find_char(v@, ':', i1 as int);
    }
    let ghost r1 = v@.skip(i1 + 1);
    let i2 = match find_from(&v, ':', i1 + 1) {
        Some(i) => i,
        None => {
            proof {
                assert forall|k: int| 0 <= k < r1.len() implies r1[k] != ':' by {
                    assert(r1[k] == v@[k + i1 + 1]);
                }
                lemma_find_char(r1, ':', r1.len() as int);
            }
            return None;
        }
    };
    proof {
        assert forall|k: int| 0 <= k < i2 - i1 - 1 implies r1[k] != ':' by {
            assert(r1[k] == v@[k + i1 + 1]);
        }
        assert(r1[i2 - i1 - 1] == v@[i2 as int]);
        lemma_find_char(r1, ':', i2 - i1 - 1);
        assert(r1.skip(i2 - i1) =~= v@.skip(i2 + 1));
        assert(r1.take(i2 - i1 - 1) =~= v@.subrange(i1 + 1, i2 as int));
    }
    let ghost r2 = v@.skip(i2 + 1);
    let i3 = match find_from(&v, ':', i2 + 1) {
        Some(i) => i,
        None => {
            proof {
                assert forall|k: int| 0 <= k < r2.len() implies r2[k] != ':' by {
                    assert(r2[k] == v@[k + i2 + 1]);
                }
                lemma_find_char(r2, ':', r2.len() as int);
            }
            return None;
        }
    };
    proof {
        assert forall|k: int| 0 <= k < i3 - i2 - 1 implies r2[k] != ':' by {
            assert(r2[k] == v@[k + i2 + 1]);
        }
        assert(r2[i3 - i2 - 1] == v@[i3 as int]);
        lemma_find_char(r2, ':', i3 - i2 - 1);
        assert(r2.skip(i3 - i2) =~= v@.skip(i3 + 1));
        assert(r2.take(i3 - i2 - 1) =~= v@.subrange(i2 + 1, i3 as int));
    }
    let a = slice_string(&v, 0, i1);
    let b = slice_string(&v, i1 + 1, i2);
    let c = slice_string(&v, i2 + 1, i3);
    let d = slice_string(&v, i3 + 1, v.len());
    proof {
        assert(v@.take(i1 as int) =~= v@.subrange(0, i1 as int));
        assert(v@.skip(i3 + 1) =~= v@.subrange(i3 + 1, v@.len() as int));
    }
    let user_id = if is_wildcard(&a) { None } else { Some(a) };
    let session_id = if is_wildcard(&b) { None } else { Some(b) };
    let agent_id = if is_wildcard(&c) { None } else { Some(c) };
    Some((MemoryScope { user_id, session_id, agent_id }, d))
}

/// The characters `v[from..to]` as a string.
fn slice_string(v: &Vec<char>, from: usize, to: usize) -> (r: String)
    requires
        from <= to <= v.len(),
    ensures
        r@ == v@.subrange(from as int, to as int),
{
    let mut r = String::new();
    let mut i = from;
    while i < to
        invariant
            from <= i <= to <= v.len(),
            r@ == v@.subrange(from as int, i as int),
        decreases to - i,
    {
        r.push(v[i]);
        i += 1;
        assert(r@ =~= v@.subrange(from as int, i as int));
    }
    r
}

/// The text stored in semantic memory when the entry under `key` is promoted.
pub fn promotion_message(key: &str, value: &str) -> (r: String)
    ensures
        r@ == promotion_text(key@, value@),
{
    let mut r = owned("Ephemeral working memory under key '");
    r.append(key);
    r.append("' was promoted: ");
    r.append(value);
    r
}

/// What an expired entry hands to semantic memory (see `promotion_model`).
pub fn promotion_for(scoped: &str, e: &WorkingEntry) -> (r: Option<(MemoryScope, String)>)
    ensures
        match r {
            Some(p) => promotion_model(scoped@, e.view()) == Some(promotion_view(p)),
            None => promotion_model(scoped@, e.view()) is None,
        },
{
    if e.access_count < 3 {
        return None;
    }
    match parse_scoped_key(scoped) {
        Some((scope, key)) => {
            let text = promotion_message(key.as_str(), e.value.as_str());
            Some((scope, text))
        }
        None => None,
    }
}

/// Reading back a scoped key gives the scope and key it was built from, provided the
/// scope components hold no `:` (a component written `*` reads back as absent).
pub proof fn law_scoped_key_round_trip(key: Seq<char>, scope: MemoryScope)
    requires
        forall|k: int| 0 <= k < part(scope.user_id).len() ==> part(scope.user_id)[k] != ':',
        forall|k: int| 0 <= k < part(scope.session_id).len() ==> part(scope.session_id)[k] != ':',
        forall|k: int| 0 <= k < part(scope.agent_id).len() ==> part(scope.agent_id)[k] != ':',
    ensures
        parse_scoped(scoped_key(key, scope)) == Some((
            unpart(part(scope.user_id)),
            unpart(part(scope.session_id)),
            unpart(part(scope.agent_id)),
            key,
        )),
{
    let u = part(scope.user_id);
    let s = part(scope.session_id);
    let a = part(scope.agent_id);
    let c = seq![':'];
    let rest1 = s + c + a + c + key;
    let rest2 = a + c + key;
    let full = scoped_key(key, scope);
    assert(full =~= u + c + rest1);
    lemma_find_char_concat(u, ':', rest1);
    assert((u + c + rest1).take(u.len() as int) =~= u);
    assert((u + c + rest1).skip(u.len() as int + 1) =~= rest1);
    assert(rest1 =~= s + c + rest2);
    lemma_find_char_concat(s, ':', rest2);
    assert((s + c + rest2).take(s.len() as int) =~= s);
    assert((s + c + rest2).skip(s.len() as int + 1) =~= rest2);
    lemma_find_char_concat(a, ':', key);
    assert((a + c + key).take(a.len() as int) =~= a);
    assert((a + c + key).skip(a.len() as int + 1) =~= key);
}

/// Where key `k` is stored.
fn position(data: &Vec<(String, WorkingEntry)>, k: &String) -> (r: Option<usize>)
    ensures
        match r {
            Some(i) => i < data.len() && data@[i as int].0@ == k@,
            None => forall|i: int| 0 <= i < data.len() ==> data@[i].0@ != k@,
        },
{
    let mut i: usize = 0;
    while i < data.len()
        invariant
            i <= data.len(),
            forall|j: int| 0 <= j < i ==> data@[j].0@ != k@,
        decreases data.len() - i,
    {
        if crate::text::str_eq(data[i].0.as_str(), k.as_str()) {
            return Some(i);
        }
        i += 1;
    }
    None
}

/// Finds the first `c` in `v` at or after `from`.
fn find_from(v: &Vec<char>, c: char, from: usize) -> (r: Option<usize>)
    requires
        from <= v.len(),
    ensures
        match r {
            Some(i) => from <= i < v.len() && v@[i as int] == c && forall|k: int| from <= k < i ==> v@[k] != c,
            None => forall|k: int| from <= k < v.len() ==> v@[k] != c,
        },
{
    let mut i = from;
    while i < v.len()
        invariant
            from <= i <= v.len(),
            forall|k: int| from <= k < i ==> v@[k] != c,
        decreases v.len() - i,
    {
        if v[i] == c {
            return Some(i);
        }
        i += 1;
    }
    None
}

/// The scoped key for `key` in `scope`: `user:session:agent:key`.
pub fn get_scoped_key(key: &str, scope: &MemoryScope) -> (r: String)
    ensures
        r@ == scoped_key(key@, *scope),
{
    let mut r = part_string(&scope.user_id);
    r.push(':');
    let s = part_string(&scope.session_id);
    r.append(s.as_str());
    r.push(':');
    let a = part_string(&scope.agent_id);
    r.append(a.as_str());
    r.push(':');
    r.append(key);
    r
}


/// What a write is read back as: after `value` is set under `key` in `scope` at clock
/// reading `now` with time-to-live `ttl`, the entry is there, holds `value`, and is live at
/// every reading from `now` until `now + ttl`; every other key keeps what it held.
pub proof fn law_set_then_get(m: Map<Seq<char>, EntryModel>, key: Seq<char>, scope: MemoryScope, value: Seq<char>,
    ttl: u64, now: u64, t: u64, other: Seq<char>)
    requires
        now <= t,
        t < now + ttl,
    ensures
        ({
            let k = scoped_key(key, scope);
            let m2 = m.insert(k, EntryModel { value: value, created_at: now, ttl_seconds: ttl, access_count: 0 });
            &&& m2.contains_key(k)
            &&& m2[k].value == value
            &&& !expired(m2[k], t)
            &&& other != k ==> (m2.contains_key(other) == m.contains_key(other) && (m.contains_key(other) ==> m2[other] == m[other]))
        }),
{
}

/// Eviction at a clock reading removes exactly the entries whose time has run out and
/// leaves every other entry as it was.
pub proof fn law_eviction_removes_exactly_expired(m: Map<Seq<char>, EntryModel>, m2: Map<Seq<char>, EntryModel>,
    gone: Map<Seq<char>, EntryModel>, now: u64, k: Seq<char>)
    requires
        eviction_outcome(m, m2, gone, now),
    ensures
        m2.contains_key(k) <==> m.contains_key(k) && !expired(m[k], now),
        gone.contains_key(k) <==> m.contains_key(k) && expired(m[k], now),
        m2.contains_key(k) ==> m2[k] == m[k],
        gone.contains_key(k) ==> gone[k] == m[k],
{
}

/// Promoting a key that holds no entry gives no text and changes nothing; promoting one
/// that does removes that entry, leaves the others, and gives the promotion text of its
/// value.
pub proof fn law_promotion(m: Map<Seq<char>, EntryModel>, key: Seq<char>, scope: MemoryScope, other: Seq<char>)
    ensures
        ({
            let k = scoped_key(key, scope);
            let (m2, text) = promotion_outcome(m, key, scope);
            &&& !m.contains_key(k) ==> m2 == m && text is None
            &&& m.contains_key(k) ==> !m2.contains_key(k) && text == Some(promotion_text(key, m[k].value))
            &&& other != k ==> m2.contains_key(other) == m.contains_key(other)
                && (m.contains_key(other) ==> m2[other] == m[other])
        }),
{
}

} // verus!
