//! The storage engine: a bounded map from string keys to string values with
//! LRU eviction, lazy TTL expiry, and snapshot persistence.
//!
//! The entries are kept in recency order: index 0 is the least-recently used
//! key (the head of the recency list) and the last index the most-recently
//! used one (the tail). A lookup or an overwrite moves the touched entry to
//! the tail; an insert into a full store first evicts the head.
//!
//! Every operation is specified against [`DbV`], the mathematical image of
//! the store, whose transition functions ([`DbV::get_state`],
//! [`DbV::set_state`], [`DbV::del_state`], [`DbV::flush_state`]) say exactly
//! how one public operation rewrites the state.

use vstd::prelude::*;

use crate::config::{Engine, EngineV};

verus! {

use vstd::string::StringExecFns;

/// One live key: its value and, when a TTL was given, the absolute instant
/// at which it expires. Instants are plain `u64` tick counts; the embedding
/// program chooses the clock.
pub struct Entry {
    pub key: String,
    pub value: String,
    pub expires: Option<u64>,
}

/// Mathematical image of [`Entry`].
#[verifier::ext_equal]
pub struct EntryV {
    pub key: Seq<char>,
    pub value: Seq<char>,
    pub expires: Option<u64>,
}

impl View for Entry {
    type V = EntryV;

    open spec fn view(&self) -> EntryV {
        EntryV { key: self.key@, value: self.value@, expires: self.expires }
    }
}

impl DeepView for Entry {
    type V = EntryV;

    open spec fn deep_view(&self) -> EntryV {
        self.view()
    }
}

/// Mathematical image of the whole store: the entries in recency order
/// (head first), the configuration, the count of mutations since the last
/// snapshot, and whether a snapshot is due to be written.
#[verifier::ext_equal]
pub struct DbV {
    pub entries: Seq<EntryV>,
    pub config: EngineV,
    pub changes: u64,
    pub snapshot_due: bool,
}

impl DbV {
    /// The store an engine starts from.
    pub open spec fn empty(config: EngineV) -> DbV {
        DbV { entries: Seq::empty(), config, changes: 0, snapshot_due: false }
    }

    /// Key of each entry, in recency order (least-recently used first).
    pub open spec fn order(self) -> Seq<Seq<char>> {
        self.entries.map_values(|e: EntryV| e.key)
    }

    /// Key-to-value mapping held by the store.
    pub open spec fn data(self) -> Map<Seq<char>, Seq<char>> {
        Map::new(|k: Seq<char>| self.has_key(k), |k: Seq<char>| self.entry_of(k).value)
    }

    /// Key-to-expiry mapping for the keys that carry a TTL.
    pub open spec fn ttl(self) -> Map<Seq<char>, u64> {
        Map::new(
            |k: Seq<char>| self.has_key(k) && self.entry_of(k).expires is Some,
            |k: Seq<char>| self.entry_of(k).expires->0,
        )
    }

    /// The `(key, value)` pairs in recency order; this is what a snapshot
    /// records.
    pub open spec fn pairs(self) -> Seq<(Seq<char>, Seq<char>)> {
        self.entries.map_values(|e: EntryV| (e.key, e.value))
    }

    pub open spec fn has_key(self, k: Seq<char>) -> bool {
        exists|i: int| 0 <= i < self.entries.len() && self.entries[i].key == k
    }

    /// Position of key `k` in the recency order; meaningful only when
    /// `has_key(k)` holds and the keys are distinct.
    pub open spec fn idx_of(self, k: Seq<char>) -> int {
        choose|i: int| 0 <= i < self.entries.len() && self.entries[i].key == k
    }

    pub open spec fn entry_of(self, k: Seq<char>) -> EntryV {
        self.entries[self.idx_of(k)]
    }

    /// Well-formedness: keys are pairwise distinct; a configured capacity is
    /// positive and never exceeded; the mutation counter stays under the
    /// snapshot threshold.
    pub open spec fn wf(self) -> bool {
        &&& keys_distinct(self.entries)
        &&& self.config.max_items matches Some(m) ==> 1 <= m && self.entries.len() <= m
        &&& self.config.persistence matches Some(p) ==> (self.changes < p.flush_every_changes
            || self.changes == 0)
    }

    /// A new key cannot be inserted without first evicting the head.
    pub open spec fn at_capacity(self) -> bool {
        self.config.max_items matches Some(m) && self.entries.len() >= m
    }

    /// One successful mutation: count it and, when the snapshot threshold is
    /// reached, reset the counter and (if persistence is enabled) mark a
    /// snapshot as due.
    pub open spec fn bump(self) -> DbV {
        match self.config.persistence {
            None => self,
            Some(p) => {
                if self.changes + 1 >= p.flush_every_changes {
                    DbV { changes: 0, snapshot_due: self.snapshot_due || p.enabled, ..self }
                } else {
                    DbV { changes: (self.changes + 1) as u64, ..self }
                }
            },
        }
    }

    /// Key `k` is present but its TTL has passed instant `now`.
    pub open spec fn expired_at(self, k: Seq<char>, now: u64) -> bool {
        self.has_key(k) && (self.entry_of(k).expires matches Some(e) && e <= now)
    }

    /// What a lookup of `k` at instant `now` returns.
    pub open spec fn get_result(self, k: Seq<char>, now: u64) -> Option<Seq<char>> {
        if self.has_key(k) && !self.expired_at(k, now) {
            Some(self.entry_of(k).value)
        } else {
            None
        }
    }

    /// Move the entry of `k` to the tail (most-recently used).
    pub open spec fn touch(self, k: Seq<char>) -> DbV {
        let i = self.idx_of(k);
        DbV { entries: self.entries.remove(i).push(self.entries[i]), ..self }
    }

    /// How a lookup of `k` at instant `now` rewrites the store: an expired
    /// key is deleted, a live key is touched, an absent key changes nothing.
    pub open spec fn get_state(self, k: Seq<char>, now: u64) -> DbV {
        if !self.has_key(k) {
            self
        } else if self.expired_at(k, now) {
            self.del_state(k)
        } else {
            self.touch(k)
        }
    }

    /// How a delete of `k` rewrites the store: a present key is unlinked and
    /// the mutation counted; an absent key changes nothing.
    pub open spec fn del_state(self, k: Seq<char>) -> DbV {
        if self.has_key(k) {
            DbV { entries: self.entries.remove(self.idx_of(k)), ..self }.bump()
        } else {
            self
        }
    }

    /// How `set(k, v, ttl)` rewrites the store. An existing key is unlinked
    /// first (no eviction happens then) and reinserted at the tail with the
    /// new value and TTL; a new key evicts the head if the store is full.
    pub open spec fn set_state(self, k: Seq<char>, v: Seq<char>, ttl: Option<u64>) -> DbV {
        let e = EntryV { key: k, value: v, expires: ttl };
        if self.has_key(k) {
            DbV { entries: self.entries.remove(self.idx_of(k)).push(e), ..self }.bump()
        } else if self.at_capacity() {
            DbV { entries: self.entries.drop_first().push(e), ..self }.bump()
        } else {
            DbV { entries: self.entries.push(e), ..self }.bump()
        }
    }

    /// How `flush` rewrites the store: empty again, configuration kept.
    pub open spec fn flush_state(self) -> DbV {
        DbV::empty(self.config)
    }
}

/// No two entries of the recency order share a key; together with the
/// sequence representation this is the whole linked-list invariant: the map
/// of keys equals the set of list nodes, the list length equals the map
/// cardinality, and head and tail are the two ends of one list.
pub open spec fn keys_distinct(es: Seq<EntryV>) -> bool {
    forall|i: int, j: int| 0 <= i < j < es.len() ==> es[i].key != es[j].key
}

/// With distinct keys, any index holding key `k` is the index `idx_of(k)`
/// picks.
proof fn lemma_idx_of(s: DbV, i: int, k: Seq<char>)
    requires
        keys_distinct(s.entries),
        0 <= i < s.entries.len(),
        s.entries[i].key == k,
    ensures
        s.has_key(k),
        s.idx_of(k) == i,
{
    assert(s.has_key(k));
    let j = s.idx_of(k);
    assert(0 <= j < s.entries.len() && s.entries[j].key == k);
}

/// Removing an entry keeps the keys distinct, and no surviving entry holds
/// the removed key.
proof fn lemma_remove_keeps(es: Seq<EntryV>, i: int)
    requires
        keys_distinct(es),
        0 <= i < es.len(),
    ensures
        keys_distinct(es.remove(i)),
        forall|j: int| 0 <= j < es.remove(i).len() ==> #[trigger] es.remove(i)[j].key != es[i].key,
{
    es.remove_ensures(i);
    assert forall|a: int, b: int|
        0 <= a < b < es.remove(i).len() implies es.remove(i)[a].key != es.remove(i)[b].key by {
        if a < i && b < i {
        } else if a < i {
            assert(es.remove(i)[b] == es[b + 1]);
        } else {
            assert(es.remove(i)[a] == es[a + 1]);
            assert(es.remove(i)[b] == es[b + 1]);
        }
    }
    assert forall|j: int|
        0 <= j < es.remove(i).len() implies #[trigger] es.remove(i)[j].key != es[i].key by {
        if j < i {
        } else {
            assert(es.remove(i)[j] == es[j + 1]);
        }
    }
}

/// Appending an entry whose key occurs nowhere keeps the keys distinct.
proof fn lemma_push_distinct(es: Seq<EntryV>, e: EntryV)
    requires
        keys_distinct(es),
        forall|j: int| 0 <= j < es.len() ==> (#[trigger] es[j].key) != e.key,
    ensures
        keys_distinct(es.push(e)),
{
    assert forall|a: int, b: int|
        0 <= a < b < es.push(e).len() implies es.push(e)[a].key != es.push(e)[b].key by {
        if b == es.len() {
            assert(es.push(e)[b] == e);
            assert(es.push(e)[a] == es[a]);
        } else {
            assert(es.push(e)[a] == es[a]);
            assert(es.push(e)[b] == es[b]);
        }
    }
}

/// Counting a mutation changes no entry and keeps the counter under the
/// snapshot threshold.
proof fn lemma_bump(s: DbV)
    requires
        s.config.persistence matches Some(p) ==> (s.changes < p.flush_every_changes || s.changes
            == 0),
    ensures
        s.bump().entries == s.entries,
        s.bump().config == s.config,
        s.bump().config.persistence matches Some(p) ==> (s.bump().changes
            < p.flush_every_changes || s.bump().changes == 0),
{
}

/// The engine invariants survive `set`: the recency order still holds each
/// live key exactly once, a configured capacity is still respected, and the
/// mutation counter stays under the snapshot threshold.
pub proof fn lemma_set_preserves_wf(s: DbV, k: Seq<char>, v: Seq<char>, ttl: Option<u64>)
    requires
        s.wf(),
    ensures
        s.set_state(k, v, ttl).wf(),
{
    let e = EntryV { key: k, value: v, expires: ttl };
    lemma_bump(s);
    if s.has_key(k) {
        let i = s.idx_of(k);
        assert(0 <= i < s.entries.len() && s.entries[i].key == k);
        lemma_remove_keeps(s.entries, i);
        lemma_push_distinct(s.entries.remove(i), e);
        assert(s.entries.remove(i).push(e).len() == s.entries.len());
    } else if s.at_capacity() {
        assert(s.entries.drop_first() =~= s.entries.remove(0));
        lemma_remove_keeps(s.entries, 0);
        lemma_push_distinct(s.entries.remove(0), e);
    } else {
        lemma_push_distinct(s.entries, e);
    }
}

/// The engine invariants survive `del`.
pub proof fn lemma_del_preserves_wf(s: DbV, k: Seq<char>)
    requires
        s.wf(),
    ensures
        s.del_state(k).wf(),
{
    lemma_bump(s);
    if s.has_key(k) {
        let i = s.idx_of(k);
        assert(0 <= i < s.entries.len() && s.entries[i].key == k);
        lemma_remove_keeps(s.entries, i);
    }
}

/// The engine invariants survive `get` (and so `exists`).
pub proof fn lemma_get_preserves_wf(s: DbV, k: Seq<char>, now: u64)
    requires
        s.wf(),
    ensures
        s.get_state(k, now).wf(),
{
    if !s.has_key(k) {
    } else if s.expired_at(k, now) {
        lemma_del_preserves_wf(s, k);
    } else {
        let i = s.idx_of(k);
        assert(0 <= i < s.entries.len() && s.entries[i].key == k);
        lemma_remove_keeps(s.entries, i);
        lemma_push_distinct(s.entries.remove(i), s.entries[i]);
        assert(s.entries.remove(i).push(s.entries[i]).len() == s.entries.len());
    }
}

/// The store itself. The `Vec` holds the entries in recency order, head
/// (least-recently used) first.
pub struct HashMapDb {
    entries: Vec<Entry>,
    config: Engine,
    changes: u64,
    snapshot_due: bool,
}

impl View for HashMapDb {
    type V = DbV;

    closed spec fn view(&self) -> DbV {
        DbV {
            entries: self.entries.deep_view(),
            config: self.config@,
            changes: self.changes,
            snapshot_due: self.snapshot_due,
        }
    }
}

impl HashMapDb {
    /// An empty store with the given configuration. A configured capacity
    /// must be positive: a store that may hold nothing cannot accept `set`.
    pub fn new(conf: Engine) -> (r: Self)
        requires
            conf@.max_items matches Some(m) ==> m >= 1,
        ensures
            r@ == DbV::empty(conf@),
            r@.wf(),
    {
        let r = HashMapDb { entries: Vec::new(), config: conf, changes: 0, snapshot_due: false };
        proof {
            assert(r@.entries =~= Seq::<EntryV>::empty());
        }
        r
    }

    /// Index of `key` in the recency order, scanning from the head.
    fn find_index(&self, key: &str) -> (r: Option<usize>)
        ensures
            match r {
                Some(i) => 0 <= i < self@.entries.len() && self@.entries[i as int].key == key@,
                None => !self@.has_key(key@),
            },
    {
        let n = self.entries.len();
        let mut i: usize = 0;
        while i < n
            invariant
                n == self.entries.len(),
                i <= n,
                forall|j: int| 0 <= j < i ==> (#[trigger] self@.entries[j].key) != key@,
            decreases n - i,
        {
            if crate::text::str_eq(self.entries[i].key.as_str(), key) {
                return Some(i);
            }
            i += 1;
        }
        None
    }

    /// Count one mutation; when the snapshot threshold is reached, reset the
    /// counter and mark a snapshot as due if persistence is enabled.
    fn evaluate_update_persistence(&mut self)
        requires
            old(self)@.config.persistence matches Some(p) ==> (old(self)@.changes
                < p.flush_every_changes || old(self)@.changes == 0),
        ensures
            final(self)@ == old(self)@.bump(),
    {
        let (has, threshold, enabled) = match &self.config.persistence {
            None => (false, 0u64, false),
            Some(p) => (true, p.flush_every_changes, p.enabled),
        };
        if has {
            if self.changes + 1 >= threshold {
                self.changes = 0;
                if enabled {
                    self.snapshot_due = true;
                }
            } else {
                self.changes = self.changes + 1;
            }
        }
    }

    /// Look `key` up at instant `now`. An expired key is deleted and treated
    /// as absent; a live key is moved to the most-recently-used position and
    /// its value returned.
    pub fn get(&mut self, key: &str, now: u64) -> (r: Option<String>)
        requires
            old(self)@.wf(),
        ensures
            final(self)@ == old(self)@.get_state(key@, now),
            final(self)@.wf(),
            match r {
                Some(v) => old(self)@.get_result(key@, now) == Some(v@),
                None => old(self)@.get_result(key@, now) is None,
            },
    {
        proof {
            lemma_get_preserves_wf(old(self)@, key@, now);
        }
        match self.find_index(key) {
            None => None,
            Some(i) => {
                proof {
                    lemma_idx_of(self@, i as int, key@);
                }
                let expired = match self.entries[i].expires {
                    Some(e) => e <= now,
                    None => false,
                };
                if expired {
                    self.del(key);
                    None
                } else {
                    let e = self.entries.remove(i);
                    let v = e.value.clone();
                    self.entries.push(e);
                    proof {
                        assert(self@.entries =~= old(self)@.touch(key@).entries);
                        assert(self@ =~= old(self)@.touch(key@));
                    }
                    Some(v)
                }
            },
        }
    }

    /// `get` as a presence test; the expiry side effect is the same.
    pub fn exists_key(&mut self, key: &str, now: u64) -> (r: bool)
        requires
            old(self)@.wf(),
        ensures
            final(self)@ == old(self)@.get_state(key@, now),
            final(self)@.wf(),
            r == (old(self)@.get_result(key@, now) is Some),
    {
        self.get(key, now).is_some()
    }

    /// Bind `key` to `value`. An existing key is unlinked and reinserted at
    /// the tail, its TTL replaced by `ttl`; a new key evicts the head first
    /// when the store is full. The expiry, when given, is absolute.
    pub fn set(&mut self, key: &str, value: String, ttl: Option<u64>)
        requires
            old(self)@.wf(),
        ensures
            final(self)@ == old(self)@.set_state(key@, value@, ttl),
            final(self)@.wf(),
    {
        proof {
            lemma_set_preserves_wf(old(self)@, key@, value@, ttl);
        }
        let entry = Entry { key: String::from_str(key), value, expires: ttl };
        match self.find_index(key) {
            Some(i) => {
                proof {
                    lemma_idx_of(self@, i as int, key@);
                }
                self.entries.remove(i);
                self.entries.push(entry);
                proof {
                    assert(self@.entries =~= old(self)@.entries.remove(
                        old(self)@.idx_of(key@),
                    ).push(EntryV { key: key@, value: value@, expires: ttl }));
                }
            },
            None => {
                let at_cap = match self.config.max_items {
                    Some(m) => self.entries.len() as u64 == m,
                    None => false,
                };
                if at_cap {
                    self.entries.remove(0);
                    self.entries.push(entry);
                    proof {
                        assert(old(self)@.entries.drop_first() =~= old(self)@.entries.remove(0));
                        assert(self@.entries =~= old(self)@.entries.drop_first().push(
                            EntryV { key: key@, value: value@, expires: ttl },
                        ));
                    }
                } else {
                    self.entries.push(entry);
                    proof {
                        assert(self@.entries =~= old(self)@.entries.push(
                            EntryV { key: key@, value: value@, expires: ttl },
                        ));
                    }
                }
            },
        }
        self.evaluate_update_persistence();
    }

    /// Remove `key` if present: unlink it from the recency order and drop
    /// its TTL. An absent key is a no-op.
    pub fn del(&mut self, key: &str)
        requires
            old(self)@.wf(),
        ensures
            final(self)@ == old(self)@.del_state(key@),
            final(self)@.wf(),
    {
        proof {
            lemma_del_preserves_wf(old(self)@, key@);
        }
        match self.find_index(key) {
            None => {},
            Some(i) => {
                proof {
                    lemma_idx_of(self@, i as int, key@);
                }
                self.entries.remove(i);
                proof {
                    assert(self@.entries =~= old(self)@.entries.remove(old(self)@.idx_of(key@)));
                }
                self.evaluate_update_persistence();
            },
        }
    }

    /// Number of live keys (the length of the recency list).
    pub fn len(&self) -> (r: usize)
        ensures
            r == self@.entries.len(),
    {
        self.entries.len()
    }

    /// The value at the head of the recency list: the least-recently used
    /// key's value, if any.
    pub fn head_value(&self) -> (r: Option<String>)
        ensures
            (match r {
                Some(v) => self@.entries.len() > 0 && v@ == self@.entries[0].value,
                None => self@.entries.len() == 0,
            }),
    {
        if self.entries.len() == 0 {
            None
        } else {
            Some(self.entries[0].value.clone())
        }
    }

    /// The value at the tail of the recency list: the most-recently used
    /// key's value, if any.
    pub fn tail_value(&self) -> (r: Option<String>)
        ensures
            (match r {
                Some(v) => self@.entries.len() > 0 && v@ == self@.entries[self@.entries.len()
                    - 1].value,
                None => self@.entries.len() == 0,
            }),
    {
        if self.entries.len() == 0 {
            None
        } else {
            Some(self.entries[self.entries.len() - 1].value.clone())
        }
    }

    /// Empty the store, keeping capacity and persistence configuration.
    pub fn flush(&mut self)
        requires
            old(self)@.wf(),
        ensures
            final(self)@ == old(self)@.flush_state(),
            final(self)@.wf(),
    {
        self.entries = Vec::new();
        self.changes = 0;
        self.snapshot_due = false;
        proof {
            assert(self@.entries =~= Seq::<EntryV>::empty());
            assert(self@ =~= old(self)@.flush_state());
        }
    }
}

/// What a snapshot records of the pairs: the byte string that the binary
/// codec produces for them. A function of the pairs alone.
pub uninterp spec fn snapshot_bytes(pairs: Seq<(Seq<char>, Seq<char>)>) -> Seq<u8>;

/// Relies on `bincode::serialize` (bincode 1.3.3): a deterministic binary
/// encoding of the key-value pairs, depending on the pairs alone. With the
/// default configuration (no size limit, writing into a vector) nothing in
/// the serialization of strings and tuples can fail, so the result is the
/// encoding itself.
#[verifier::external_body]
fn snapshot_encode(pairs: &Vec<(String, String)>) -> (r: Vec<u8>)
    ensures
        r@ == snapshot_bytes(pairs.deep_view()),
{
    bincode::serialize(pairs).unwrap()
}

/// Relies on `bincode::deserialize` (bincode 1.3.3): the inverse of
/// `bincode::serialize` on every byte string the latter produces.
#[verifier::external_body]
fn snapshot_decode(bytes: &Vec<u8>) -> (r: Option<Vec<(String, String)>>)
    ensures
        r matches Some(v) ==> (forall|q: Seq<(Seq<char>, Seq<char>)>|
            bytes@ == #[trigger] snapshot_bytes(q) ==> v.deep_view() == q),
        r is None ==> (forall|q: Seq<(Seq<char>, Seq<char>)>|
            bytes@ != #[trigger] snapshot_bytes(q)),
{
    bincode::deserialize(bytes.as_slice()).ok()
}

/// Persistence is configured and switched on.
pub open spec fn persistence_active(conf: EngineV) -> bool {
    conf.persistence matches Some(p) && p.enabled
}

/// Failure to rebuild a store from a snapshot.
#[derive(Debug)]
pub enum DbError {
    /// The snapshot bytes did not decode to a list of key-value pairs.
    SnapshotDecoding,
}

/// Replaying snapshot pairs: one `set` with no TTL per pair, first pair
/// first.
pub open spec fn replay(s: DbV, q: Seq<(Seq<char>, Seq<char>)>) -> DbV
    decreases q.len(),
{
    if q.len() == 0 {
        s
    } else {
        replay(s.set_state(q[0].0, q[0].1, None), q.drop_first())
    }
}

/// The store that rehydration from snapshot pairs `q` produces under
/// configuration `conf`: the pairs are replayed into an empty store with
/// persistence disabled, then the configuration is put back.
pub open spec fn rehydrated(conf: EngineV, q: Seq<(Seq<char>, Seq<char>)>) -> DbV {
    let shadow = EngineV { max_items: conf.max_items, persistence: None };
    DbV { config: conf, ..replay(DbV::empty(shadow), q) }
}

/// Replaying one more pair is one more `set`.
proof fn lemma_replay_snoc(s: DbV, q: Seq<(Seq<char>, Seq<char>)>, x: (Seq<char>, Seq<char>))
    ensures
        replay(s, q.push(x)) == replay(s, q).set_state(x.0, x.1, None),
    decreases q.len(),
{
    assert(q.push(x)[0] == if q.len() == 0 { x } else { q[0] });
    if q.len() == 0 {
        assert(q.push(x).drop_first() =~= q);
        assert(replay(s, q.push(x)) == replay(s.set_state(x.0, x.1, None), q));
    } else {
        assert(q.push(x).drop_first() =~= q.drop_first().push(x));
        lemma_replay_snoc(s.set_state(q[0].0, q[0].1, None), q.drop_first(), x);
    }
}

impl HashMapDb {
    /// Hand out the snapshot bytes when one is due, clearing the flag; the
    /// caller writes them to the configured file. A snapshot is handed out
    /// exactly when one is due, and it encodes the store's pairs.
    pub fn take_snapshot(&mut self) -> (r: Option<Vec<u8>>)
        ensures
            final(self)@ == (DbV { snapshot_due: false, ..old(self)@ }),
            old(self)@.snapshot_due ==> (r matches Some(b) && b@ == snapshot_bytes(
                old(self)@.pairs(),
            )),
            r matches Some(b) ==> old(self)@.snapshot_due && b@ == snapshot_bytes(
                old(self)@.pairs(),
            ),
    {
        if !self.snapshot_due {
            proof {
                assert(self@ =~= DbV { snapshot_due: false, ..old(self)@ });
            }
            return None;
        }
        self.snapshot_due = false;
        let n = self.entries.len();
        let mut pairs: Vec<(String, String)> = Vec::new();
        let mut i: usize = 0;
        while i < n
            invariant
                n == self.entries.len(),
                i <= n,
                self@ == (DbV { snapshot_due: false, ..old(self)@ }),
                pairs.deep_view() =~= self@.pairs().subrange(0, i as int),
            decreases n - i,
        {
            let ghost prev_sh = pairs@;
            let ghost prev_dv = pairs.deep_view();
            let k = self.entries[i].key.clone();
            let v = self.entries[i].value.clone();
            let pair = (k, v);
            let ghost pval = pair;
            let ghost kv = (pair.0@, pair.1@);
            pairs.push(pair);
            proof {
                assert(prev_dv.len() == i as int);
                assert(prev_sh.len() == i as int);
                assert(pairs@ == prev_sh.push(pval));
                assert(self@.entries[i as int] == self.entries@[i as int]@);
                assert forall|j: int| 0 <= j <= i implies pairs.deep_view()[j] == self@.pairs()
                    .subrange(0, i + 1)[j] by {
                    if j < i {
                        assert(prev_sh.push(pval)[j] == prev_sh[j]);
                        assert(prev_dv[j] == prev_sh[j].deep_view());
                        assert(prev_dv[j] == self@.pairs().subrange(0, i as int)[j]);
                    } else {
                        assert(prev_sh.push(pval)[j] == pval);
                        assert(pairs.deep_view()[j] == (pairs@[j].0@, pairs@[j].1@));
                        assert(pairs@[j].0@ == kv.0 && pairs@[j].1@ == kv.1);
                        assert(self@.pairs()[j] == (self@.entries[j].key, self@.entries[j].value));
                    }
                }
                assert(pairs.deep_view().len() == i + 1);
                assert(pairs.deep_view() =~= self@.pairs().subrange(0, i + 1));
            }
            i += 1;
        }
        proof {
            assert(pairs.deep_view() =~= old(self)@.pairs());
        }
        Some(snapshot_encode(&pairs))
    }
}

/// Build the store a server starts from. `data` is the content of the
/// snapshot file, if persistence is enabled and the file was readable; the
/// caller does the reading. With no usable snapshot the store starts empty;
/// otherwise the decoded pairs are replayed (with persistence disabled, to
/// avoid counting the replay as mutations) and the configuration is then
/// put back in force.
pub fn create_db(conf: &Engine, data: Option<Vec<u8>>) -> (r: Result<HashMapDb, DbError>)
    requires
        conf@.max_items matches Some(m) ==> m >= 1,
    ensures
        r matches Ok(db) ==> db@.wf() && db@.config == conf@,
        r matches Ok(db) ==> (exists|q: Seq<(Seq<char>, Seq<char>)>| db@ == rehydrated(conf@, q)),
        !(persistence_active(conf@) && data is Some) ==> (r matches Ok(db) && db@ == DbV::empty(
            conf@,
        )),
        r matches Ok(db) ==> (forall|q: Seq<(Seq<char>, Seq<char>)>|
            (persistence_active(conf@) && (data matches Some(b) && b@
                == #[trigger] snapshot_bytes(q))) ==> db@ == rehydrated(conf@, q)),
        (persistence_active(conf@) && (data matches Some(b) && (exists|q: Seq<
            (Seq<char>, Seq<char>),
        >| b@ == #[trigger] snapshot_bytes(q)))) ==> (r is Ok),
        r is Err ==> persistence_active(conf@) && (data is Some),
{
    let enabled = match &conf.persistence {
        Some(p) => p.enabled,
        None => false,
    };
    let bytes = match data {
        Some(b) => b,
        None => {
            let db = HashMapDb::new(conf.clone());
            proof {
                assert(db@ =~= rehydrated(conf@, Seq::empty())) by {
                    assert(db@.entries =~= rehydrated(conf@, Seq::empty()).entries);
                }
            }
            return Ok(db);
        },
    };
    if !enabled {
        let db = HashMapDb::new(conf.clone());
        proof {
            assert(db@ =~= rehydrated(conf@, Seq::empty())) by {
                assert(db@.entries =~= rehydrated(conf@, Seq::empty()).entries);
            }
        }
        return Ok(db);
    }
    let pairs = match snapshot_decode(&bytes) {
        Some(p) => p,
        None => {
            return Err(DbError::SnapshotDecoding);
        },
    };
    let shadow = Engine { max_items: conf.max_items, persistence: None };
    let mut db = HashMapDb::new(shadow);
    let ghost shadow_v = EngineV { max_items: conf@.max_items, persistence: None };
    let n = pairs.len();
    let mut i: usize = 0;
    while i < n
        invariant
            n == pairs.len(),
            i <= n,
            db@.wf(),
            db@.config == shadow_v,
            (shadow_v.persistence is None),
            db@.changes == 0,
            db@.snapshot_due == false,
            db@ == replay(DbV::empty(shadow_v), pairs.deep_view().subrange(0, i as int)),
        decreases n - i,
    {
        proof {
            lemma_replay_snoc(
                DbV::empty(shadow_v),
                pairs.deep_view().subrange(0, i as int),
                pairs.deep_view()[i as int],
            );
            assert(pairs.deep_view().subrange(0, i as int).push(pairs.deep_view()[i as int])
                =~= pairs.deep_view().subrange(0, i + 1));
        }
        let ghost prev_db = db@;
        let key_owned = pairs[i].0.clone();
        let value = pairs[i].1.clone();
        db.set(key_owned.as_str(), value, None);
        proof {
            assert(prev_db.config.persistence is None);
            assert(db@ == prev_db.set_state(pairs.deep_view()[i as int].0, pairs.deep_view()[
                i as int].1, None));
            assert(db@.changes == prev_db.changes && db@.snapshot_due == prev_db.snapshot_due
                && db@.config == prev_db.config);
        }
        i += 1;
    }
    proof {
        assert(pairs.deep_view().subrange(0, n as int) =~= pairs.deep_view());
    }
    let ghost replayed = db@;
    db.config = conf.clone();
    proof {
        assert(db@.entries == replayed.entries);
        assert(db@ =~= rehydrated(conf@, pairs.deep_view()));
    }
    Ok(db)
}

/// No two snapshot pairs share a key.
pub open spec fn pair_keys_distinct(q: Seq<(Seq<char>, Seq<char>)>) -> bool {
    forall|i: int, j: int| 0 <= i < j < q.len() ==> q[i].0 != q[j].0
}

/// The entry that replaying one snapshot pair creates.
pub open spec fn entry_of_pair(p: (Seq<char>, Seq<char>)) -> EntryV {
    EntryV { key: p.0, value: p.1, expires: None }
}

/// The entries that replaying a run of snapshot pairs creates, in order.
pub open spec fn pairs_entries(q: Seq<(Seq<char>, Seq<char>)>) -> Seq<EntryV> {
    q.map_values(|p: (Seq<char>, Seq<char>)| entry_of_pair(p))
}

/// Which part of the first `i` replayed pairs is still resident: everything,
/// except that a capacity `m` keeps only the last `m` of them.
pub open spec fn window_lo(conf: EngineV, i: int) -> int {
    match conf.max_items {
        Some(m) => if i - m > 0 { i - m } else { 0 },
        None => 0,
    }
}

/// Replaying distinct fresh keys into an empty store keeps exactly the last
/// window of them, in insertion order.
proof fn lemma_fill_window(conf: EngineV, q: Seq<(Seq<char>, Seq<char>)>, i: int)
    requires
        pair_keys_distinct(q),
        conf.max_items matches Some(m) ==> m >= 1,
        0 <= i <= q.len(),
    ensures
        replay(DbV::empty(conf), q.take(i)).wf(),
        replay(DbV::empty(conf), q.take(i)).config == conf,
        replay(DbV::empty(conf), q.take(i)).entries == pairs_entries(
            q.subrange(window_lo(conf, i), i),
        ),
        (conf.persistence is None) ==> replay(DbV::empty(conf), q.take(i)).changes == 0
            && replay(DbV::empty(conf), q.take(i)).snapshot_due == false,
    decreases i,
{
    let s0 = DbV::empty(conf);
    if i == 0 {
        assert(q.take(0) =~= Seq::<(Seq<char>, Seq<char>)>::empty());
        assert(replay(s0, q.take(0)) == s0);
        assert(s0.entries =~= pairs_entries(q.subrange(0, 0)));
    } else {
        lemma_fill_window(conf, q, i - 1);
        let sp = replay(s0, q.take(i - 1));
        let x = q[i - 1];
        let lo = window_lo(conf, i - 1);
        assert(q.take(i) =~= q.take(i - 1).push(x));
        lemma_replay_snoc(s0, q.take(i - 1), x);
        assert(replay(s0, q.take(i)) == sp.set_state(x.0, x.1, None));
        assert(sp.entries.len() == i - 1 - lo);
        assert forall|j: int| 0 <= j < sp.entries.len() implies #[trigger] sp.entries[j]
            == entry_of_pair(q[lo + j]) by {
            assert(sp.entries[j] == pairs_entries(q.subrange(lo, i - 1))[j]);
            assert(pairs_entries(q.subrange(lo, i - 1))[j] == entry_of_pair(
                q.subrange(lo, i - 1)[j],
            ));
        }
        assert(!sp.has_key(x.0)) by {
            if sp.has_key(x.0) {
                let j = sp.idx_of(x.0);
                assert(0 <= j < sp.entries.len() && sp.entries[j].key == x.0);
                assert(q[lo + j].0 == x.0);
                assert(lo + j < i - 1);
            }
        }
        lemma_set_preserves_wf(sp, x.0, x.1, None);
        let e = EntryV { key: x.0, value: x.1, expires: None };
        let target = pairs_entries(q.subrange(window_lo(conf, i), i));
        if sp.at_capacity() {
            let m = conf.max_items->0;
            assert(sp.entries.len() == m);
            assert(window_lo(conf, i) == lo + 1);
            let grown = sp.entries.drop_first().push(e);
            lemma_bump(DbV { entries: grown, ..sp });
            assert forall|j: int| 0 <= j < target.len() implies grown[j] == target[j] by {
                assert(target[j] == entry_of_pair(q.subrange(window_lo(conf, i), i)[j]));
                if j < m - 1 {
                    assert(grown[j] == sp.entries.drop_first()[j]);
                    assert(sp.entries.drop_first()[j] == sp.entries[j + 1]);
                } else {
                    assert(grown[j] == e);
                }
            }
            assert(grown =~= target);
        } else {
            assert(window_lo(conf, i) == lo);
            let grown = sp.entries.push(e);
            lemma_bump(DbV { entries: grown, ..sp });
            assert forall|j: int| 0 <= j < target.len() implies grown[j] == target[j] by {
                assert(target[j] == entry_of_pair(q.subrange(window_lo(conf, i), i)[j]));
                if j < i - 1 - lo {
                    assert(grown[j] == sp.entries[j]);
                } else {
                    assert(grown[j] == e);
                }
            }
            assert(grown =~= target);
        }
    }
}

/// Touching a key moves exactly that key to the most-recently-used end of
/// the recency order and keeps every other key's relative order: the order
/// always lists the live keys by their last touch.
pub proof fn lemma_touch_order(s: DbV, k: Seq<char>)
    requires
        s.wf(),
        s.has_key(k),
    ensures
        s.touch(k).order() == s.order().remove(s.idx_of(k)).push(k),
{
    let i = s.idx_of(k);
    assert(0 <= i < s.entries.len() && s.entries[i].key == k);
    s.entries.remove_ensures(i);
    s.order().remove_ensures(i);
    let lhs = s.touch(k).order();
    let rhs = s.order().remove(i).push(k);
    assert forall|j: int| 0 <= j < lhs.len() implies lhs[j] == rhs[j] by {
        assert(lhs[j] == s.touch(k).entries[j].key);
        if j < s.entries.len() - 1 {
            assert(s.touch(k).entries[j] == s.entries.remove(i)[j]);
            assert(s.order().remove(i)[j] == s.order()[if j < i {
                j
            } else {
                j + 1
            }]);
        } else {
            assert(s.touch(k).entries[j] == s.entries[i]);
        }
    }
    assert(lhs =~= rhs);
}

/// A key with a TTL is always a live key: the TTL map's key set is a
/// subset of the entry map's key set.
pub proof fn lemma_ttl_within_data(s: DbV)
    ensures
        forall|k: Seq<char>| #[trigger] s.ttl().dom().contains(k) ==> s.data().dom().contains(k),
{
}

/// Eviction ordering: fill an empty store of capacity `cap` with more
/// distinct new keys than fit, without TTLs; then exactly the oldest
/// insertions are gone, and each of the last `cap` keys still answers with
/// its value, at any instant.
pub proof fn lemma_eviction_ordering(
    conf: EngineV,
    q: Seq<(Seq<char>, Seq<char>)>,
    cap: u64,
    now: u64,
)
    requires
        conf.max_items == Some(cap),
        1 <= cap <= q.len(),
        pair_keys_distinct(q),
    ensures
        forall|i: int|
            0 <= i < q.len() - cap ==> replay(DbV::empty(conf), q).get_result(
                #[trigger] q[i].0,
                now,
            ) is None,
        forall|i: int|
            q.len() - cap <= i < q.len() ==> replay(DbV::empty(conf), q).get_result(
                #[trigger] q[i].0,
                now,
            ) == Some(q[i].1),
{
    let n = q.len() as int;
    let lo = n - cap;
    lemma_fill_window(conf, q, n);
    assert(q.take(n) =~= q);
    let r = replay(DbV::empty(conf), q);
    assert(r.entries == pairs_entries(q.subrange(lo, n)));
    assert forall|j: int| 0 <= j < r.entries.len() implies #[trigger] r.entries[j]
        == entry_of_pair(q[lo + j]) by {
        assert(r.entries[j] == entry_of_pair(q.subrange(lo, n)[j]));
    }
    assert forall|i: int| 0 <= i < n - cap implies r.get_result(q[i].0, now) is None by {
        if r.has_key(q[i].0) {
            let j = r.idx_of(q[i].0);
            assert(0 <= j < r.entries.len() && r.entries[j].key == q[i].0);
            assert(q[lo + j].0 == q[i].0);
            assert(i < lo + j);
        }
    }
    assert forall|i: int| lo <= i < n implies r.get_result(q[i].0, now) == Some(q[i].1) by {
        assert(r.entries[i - lo] == entry_of_pair(q[i]));
        lemma_idx_of(r, i - lo, q[i].0);
        assert(!r.expired_at(q[i].0, now));
    }
}

/// TTL monotonicity: once a lookup finds a key expired, every lookup at the
/// same or a later instant misses too, whether or not the expired entry has
/// already been deleted by the first lookup.
pub proof fn lemma_ttl_monotonic(s: DbV, k: Seq<char>, t1: u64, t2: u64)
    requires
        s.wf(),
        t1 <= t2,
        s.expired_at(k, t1),
    ensures
        s.get_result(k, t1) is None,
        s.get_result(k, t2) is None,
        s.get_state(k, t1).get_result(k, t2) is None,
{
    let i = s.idx_of(k);
    assert(0 <= i < s.entries.len() && s.entries[i].key == k);
    lemma_remove_keeps(s.entries, i);
    lemma_bump(DbV { entries: s.entries.remove(i), ..s });
    let d = s.del_state(k);
    assert(!d.has_key(k)) by {
        if d.has_key(k) {
            let j = d.idx_of(k);
            assert(0 <= j < d.entries.len() && d.entries[j].key == k);
            assert(d.entries == s.entries.remove(i));
        }
    }
}

/// Persistence round-trip: rehydrating a well-formed store from its own
/// snapshot pairs restores exactly its key-to-value mapping (the recency
/// order is simply the replay order) and leaves no TTLs behind.
pub proof fn lemma_snapshot_roundtrip(s: DbV, conf: EngineV)
    requires
        s.wf(),
        conf.max_items matches Some(m) ==> m >= 1 && s.entries.len() <= m,
    ensures
        rehydrated(conf, s.pairs()).wf(),
        rehydrated(conf, s.pairs()).data() == s.data(),
        rehydrated(conf, s.pairs()).ttl() == Map::<Seq<char>, u64>::empty(),
{
    let q = s.pairs();
    let n = q.len() as int;
    let shadow = EngineV { max_items: conf.max_items, persistence: None };
    assert forall|j: int| 0 <= j < n implies #[trigger] q[j] == (
        s.entries[j].key,
        s.entries[j].value,
    ) by {}
    assert(pair_keys_distinct(q));
    lemma_fill_window(shadow, q, n);
    assert(q.take(n) =~= q);
    assert(window_lo(shadow, n) == 0);
    assert(q.subrange(0, n) =~= q);
    let rp = replay(DbV::empty(shadow), q);
    let r = rehydrated(conf, q);
    assert(r.entries == rp.entries);
    assert forall|j: int| 0 <= j < r.entries.len() implies #[trigger] r.entries[j]
        == entry_of_pair(q[j]) by {
        assert(rp.entries[j] == entry_of_pair(q.subrange(0, n)[j]));
    }
    assert(r.wf());
    assert forall|k: Seq<char>| r.has_key(k) == s.has_key(k) by {
        if r.has_key(k) {
            let j = r.idx_of(k);
            assert(0 <= j < r.entries.len() && r.entries[j].key == k);
            assert(s.entries[j].key == k);
        }
        if s.has_key(k) {
            let j = s.idx_of(k);
            assert(0 <= j < s.entries.len() && s.entries[j].key == k);
            assert(r.entries[j].key == k);
        }
    }
    assert forall|k: Seq<char>| #[trigger] r.has_key(k) && s.has_key(k) implies r.entry_of(
        k,
    ).value == s.entry_of(k).value by {
        let j = r.idx_of(k);
        assert(0 <= j < r.entries.len() && r.entries[j].key == k);
        assert(s.entries[j].key == k);
        lemma_idx_of(s, j, k);
        assert(r.entries[j].value == q[j].1);
    }
    assert(r.data() =~= s.data());
    assert forall|k: Seq<char>| !(r.has_key(k) && r.entry_of(k).expires is Some) by {
        if r.has_key(k) {
            let j = r.idx_of(k);
            assert(0 <= j < r.entries.len() && r.entries[j].key == k);
            assert(r.entries[j].expires is None);
        }
    }
    assert(r.ttl() =~= Map::<Seq<char>, u64>::empty());
}

} // verus!
