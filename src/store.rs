//! The datastore: a Live tier, named Pending tiers, per-key metadata, and the
//! schema of settings keys that a write may create.
use vstd::prelude::*;
use crate::assoc::{
    assoc_map, has_key, keys_unique, lemma_absent, lemma_empty, lemma_index, lemma_push, lemma_take_all,
    lemma_push_fresh, lemma_take_step, lemma_update,
};
use crate::error::Error;

verus! {

/// A key and its serialized value.
#[derive(Debug, Clone, PartialEq, Eq)]
pub struct Setting {
    pub key: String,
    pub value: String,
}

/// A value written under a key inside a named transaction.
#[derive(Debug, Clone, PartialEq, Eq)]
pub struct PendingWrite {
    pub tx: String,
    pub key: String,
    pub value: String,
}

/// One metadata annotation: `key` carries `value` under `kind`
/// (`affected-services`, `template`, `setting-generator`, ...).
#[derive(Debug, Clone, PartialEq, Eq)]
pub struct Metadata {
    pub key: String,
    pub kind: String,
    pub value: String,
}

/// Which tier an operation reads or writes.
#[derive(Debug, Clone, PartialEq, Eq)]
pub enum Committed {
    Live,
    Pending { tx: String },
}

/// What a store holds, as mathematical values.
pub ghost struct StoreModel {
    /// Committed value of each key.
    pub live: Map<Seq<char>, Seq<char>>,
    /// Uncommitted value of each (transaction, key).
    pub pending: Map<(Seq<char>, Seq<char>), Seq<char>>,
    /// The (key, kind, value) annotations.
    pub metadata: Set<(Seq<char>, Seq<char>, Seq<char>)>,
    /// The settings keys that a write may name.
    pub schema: Set<Seq<char>>,
}

/// The character sequences of a list of strings.
pub open spec fn strs(v: Seq<String>) -> Seq<Seq<char>> {
    v.map_values(|s: String| s@)
}

/// Entries as (key, value) pairs.
pub open spec fn live_pairs(v: Seq<Setting>) -> Seq<(Seq<char>, Seq<char>)> {
    v.map_values(|e: Setting| (e.key@, e.value@))
}

/// Pending writes as ((transaction, key), value) pairs.
pub open spec fn pending_pairs(v: Seq<PendingWrite>) -> Seq<((Seq<char>, Seq<char>), Seq<char>)> {
    v.map_values(|e: PendingWrite| ((e.tx@, e.key@), e.value@))
}

/// Annotations as (key, kind, value) triples.
pub open spec fn meta_triples(v: Seq<Metadata>) -> Seq<(Seq<char>, Seq<char>, Seq<char>)> {
    v.map_values(|e: Metadata| (e.key@, e.kind@, e.value@))
}

/// The writes of transaction `t`, by key.
pub open spec fn tx_pending(pending: Map<(Seq<char>, Seq<char>), Seq<char>>, t: Seq<char>) -> Map<
    Seq<char>,
    Seq<char>,
> {
    Map::new(|k: Seq<char>| pending.contains_key((t, k)), |k: Seq<char>| pending[(t, k)])
}

/// The pending tiers without transaction `t`.
pub open spec fn drop_tx(pending: Map<(Seq<char>, Seq<char>), Seq<char>>, t: Seq<char>) -> Map<
    (Seq<char>, Seq<char>),
    Seq<char>,
> {
    Map::new(
        |p: (Seq<char>, Seq<char>)| pending.contains_key(p) && p.0 != t,
        |p: (Seq<char>, Seq<char>)| pending[p],
    )
}

/// The writes `w` placed in transaction `t`.
pub open spec fn lift_tx(t: Seq<char>, w: Map<Seq<char>, Seq<char>>) -> Map<
    (Seq<char>, Seq<char>),
    Seq<char>,
> {
    Map::new(|p: (Seq<char>, Seq<char>)| p.0 == t && w.contains_key(p.1), |p: (Seq<char>, Seq<char>)| w[p.1])
}

/// The names of the transactions that hold at least one write.
pub open spec fn transactions(pending: Map<(Seq<char>, Seq<char>), Seq<char>>) -> Set<Seq<char>> {
    Set::new(|t: Seq<char>| exists|k: Seq<char>| pending.contains_key((t, k)))
}

/// The keys whose value a promotion of `w` over `live` changes.
pub open spec fn changed_keys(live: Map<Seq<char>, Seq<char>>, w: Map<Seq<char>, Seq<char>>) -> Set<
    Seq<char>,
> {
    w.dom().filter(|k: Seq<char>| !(live.contains_key(k) && live[k] == w[k]))
}

/// `p` is a prefix of `s`.
pub open spec fn starts_with(s: Seq<char>, p: Seq<char>) -> bool {
    p.len() <= s.len() && s.subrange(0, p.len() as int) == p
}

/// The entries of `m` whose key starts with `p`.
pub open spec fn under_prefix(m: Map<Seq<char>, Seq<char>>, p: Seq<char>) -> Map<Seq<char>, Seq<char>> {
    Map::new(|k: Seq<char>| m.contains_key(k) && starts_with(k, p), |k: Seq<char>| m[k])
}

/// The writes a list of settings makes: a later entry for a key wins.
pub open spec fn writes_of(s: Seq<Setting>) -> Map<Seq<char>, Seq<char>>
    decreases s.len(),
{
    if s.len() == 0 {
        Map::empty()
    } else {
        writes_of(s.drop_last()).insert(s.last().key@, s.last().value@)
    }
}

/// The values that `key` carries under metadata kind `kind`.
pub open spec fn meta_values(
    metadata: Set<(Seq<char>, Seq<char>, Seq<char>)>,
    key: Seq<char>,
    kind: Seq<char>,
) -> Set<Seq<char>> {
    Set::new(|v: Seq<char>| metadata.contains((key, kind, v)))
}

/// The schema names every key of `s`.
pub open spec fn all_known(schema: Set<Seq<char>>, s: Seq<Setting>) -> bool {
    forall|i: int| 0 <= i < s.len() ==> schema.contains(#[trigger] s[i].key@)
}

/// The key at `i` is the first of `s` that the schema does not name.
pub open spec fn first_unknown(schema: Set<Seq<char>>, s: Seq<Setting>, i: int) -> bool {
    &&& 0 <= i < s.len()
    &&& !schema.contains(s[i].key@)
    &&& forall|j: int| 0 <= j < i ==> schema.contains(#[trigger] s[j].key@)
}

/// Whether `v` holds `x`.
pub fn contains_str(v: &Vec<String>, x: &String) -> (r: bool)
    ensures
        r == strs(v@).contains(x@),
{
    let mut i: usize = 0;
    while i < v.len()
        invariant
            i <= v@.len(),
            forall|j: int| 0 <= j < i ==> v@[j]@ != x@,
        decreases v@.len() - i,
    {
        if v[i] == *x {
            assert(strs(v@)[i as int] == x@);
            return true;
        }
        i = i + 1;
    }
    assert forall|j: int| 0 <= j < strs(v@).len() implies strs(v@)[j] != x@ by {
        assert(strs(v@)[j] == v@[j]@);
    }
    false
}

/// Whether `s` begins with `p`.
pub fn has_prefix(s: &String, p: &String) -> (r: bool)
    ensures
        r == starts_with(s@, p@),
{
    let ss = s.as_str();
    let ps = p.as_str();
    let n = ps.unicode_len();
    let m = ss.unicode_len();
    if n > m {
        return false;
    }
    let mut i: usize = 0;
    while i < n
        invariant
            i <= n <= m,
            n == p@.len(),
            m == s@.len(),
            ss@ == s@,
            ps@ == p@,
            forall|j: int| 0 <= j < i ==> s@[j] == p@[j],
        decreases n - i,
    {
        if ss.get_char(i) != ps.get_char(i) {
            assert(s@.subrange(0, n as int)[i as int] != p@[i as int]);
            return false;
        }
        i = i + 1;
    }
    assert(s@.subrange(0, n as int) =~= p@);
    true
}

impl StoreModel {
    /// The map that a read of tier `c` sees.
    pub open spec fn scope(self, c: Committed) -> Map<Seq<char>, Seq<char>> {
        match c {
            Committed::Live => self.live,
            Committed::Pending { tx } => tx_pending(self.pending, tx@),
        }
    }

    /// The store after transaction `t` is promoted to Live.
    pub open spec fn commit(self, t: Seq<char>) -> StoreModel {
        StoreModel {
            live: self.live.union_prefer_right(tx_pending(self.pending, t)),
            pending: drop_tx(self.pending, t),
            ..self
        }
    }

    /// The store after transaction `t` is discarded.
    pub open spec fn delete(self, t: Seq<char>) -> StoreModel {
        StoreModel { pending: drop_tx(self.pending, t), ..self }
    }

    /// The store after the writes `w` are merged into transaction `t`.
    pub open spec fn write(self, t: Seq<char>, w: Map<Seq<char>, Seq<char>>) -> StoreModel {
        StoreModel { pending: self.pending.union_prefer_right(lift_tx(t, w)), ..self }
    }
}

/// An in-memory datastore.
pub struct DataStore {
    live: Vec<Setting>,
    pending: Vec<PendingWrite>,
    metadata: Vec<Metadata>,
    schema: Vec<String>,
}

impl View for DataStore {
    type V = StoreModel;

    closed spec fn view(&self) -> StoreModel {
        StoreModel {
            live: assoc_map(live_pairs(self.live@)),
            pending: assoc_map(pending_pairs(self.pending@)),
            metadata: meta_triples(self.metadata@).to_set(),
            schema: strs(self.schema@).to_set(),
        }
    }
}

impl DataStore {
    /// Each key occurs once in Live and once per transaction.
    pub closed spec fn wf(&self) -> bool {
        &&& keys_unique(live_pairs(self.live@))
        &&& keys_unique(pending_pairs(self.pending@))
    }

    /// An empty store whose settings writes may name the keys of `schema`.
    pub fn new(schema: Vec<String>) -> (r: DataStore)
        ensures
            r.wf(),
            r@.live == Map::<Seq<char>, Seq<char>>::empty(),
            r@.pending == Map::<(Seq<char>, Seq<char>), Seq<char>>::empty(),
            r@.metadata == Set::<(Seq<char>, Seq<char>, Seq<char>)>::empty(),
            r@.schema == strs(schema@).to_set(),
    {
        let r = DataStore { live: Vec::new(), pending: Vec::new(), metadata: Vec::new(), schema };
        proof {
            lemma_empty(live_pairs(r.live@));
            lemma_empty(pending_pairs(r.pending@));
            assert(meta_triples(r.metadata@).to_set() =~= Set::empty());
        }
        r
    }

    /// The position of `key` in Live.
    fn find_live(&self, key: &String) -> (r: Option<usize>)
        ensures
            match r {
                Some(i) => i < self.live@.len() && self.live@[i as int].key@ == key@,
                None => forall|i: int| 0 <= i < self.live@.len() ==> self.live@[i].key@ != key@,
            },
    {
        let mut i: usize = 0;
        while i < self.live.len()
            invariant
                i <= self.live@.len(),
                forall|j: int| 0 <= j < i ==> self.live@[j].key@ != key@,
            decreases self.live@.len() - i,
        {
            if self.live[i].key == *key {
                return Some(i);
            }
            i = i + 1;
        }
        None
    }

    /// The position of `key` in transaction `tx`.
    fn find_pending(&self, tx: &String, key: &String) -> (r: Option<usize>)
        ensures
            match r {
                Some(i) => i < self.pending@.len() && self.pending@[i as int].tx@ == tx@
                    && self.pending@[i as int].key@ == key@,
                None => forall|i: int|
                    0 <= i < self.pending@.len() ==> !(self.pending@[i].tx@ == tx@
                        && self.pending@[i].key@ == key@),
            },
    {
        let mut i: usize = 0;
        while i < self.pending.len()
            invariant
                i <= self.pending@.len(),
                forall|j: int|
                    0 <= j < i ==> !(self.pending@[j].tx@ == tx@ && self.pending@[j].key@ == key@),
            decreases self.pending@.len() - i,
        {
            if self.pending[i].tx == *tx && self.pending[i].key == *key {
                return Some(i);
            }
            i = i + 1;
        }
        None
    }

    /// The value of `key` in tier `committed`, if it has one.
    pub fn get(&self, key: &String, committed: &Committed) -> (r: Option<String>)
        requires
            self.wf(),
        ensures
            match r {
                Some(v) => self@.scope(*committed).contains_key(key@) && self@.scope(
                    *committed,
                )[key@] == v@,
                None => !self@.scope(*committed).contains_key(key@),
            },
    {
        match committed {
            Committed::Live => match self.find_live(key) {
                Some(i) => {
                    proof {
                        lemma_index(live_pairs(self.live@), i as int);
                    }
                    Some(self.live[i].value.clone())
                },
                None => {
                    proof {
                        lemma_absent(live_pairs(self.live@), key@);
                    }
                    None
                },
            },
            Committed::Pending { tx } => match self.find_pending(tx, key) {
                Some(i) => {
                    proof {
                        lemma_index(pending_pairs(self.pending@), i as int);
                    }
                    Some(self.pending[i].value.clone())
                },
                None => {
                    proof {
                        lemma_absent(pending_pairs(self.pending@), (tx@, key@));
                    }
                    None
                },
            },
        }
    }

    /// Writes `value` under `key` in Live, creating the key where needed.
    fn put_live(&mut self, key: String, value: String)
        requires
            old(self).wf(),
        ensures
            final(self).wf(),
            final(self)@ == (StoreModel { live: old(self)@.live.insert(key@, value@), ..old(self)@ }),
            final(self).pending@ == old(self).pending@,
    {
        match self.find_live(&key) {
            Some(i) => {
                proof {
                    lemma_update(live_pairs(self.live@), i as int, value@);
                }
                let e = Setting { key, value };
                self.live.set(i, e);
                proof {
                    assert(live_pairs(self.live@) =~= live_pairs(old(self).live@).update(
                        i as int,
                        (key@, value@),
                    ));
                }
            },
            None => {
                proof {
                    lemma_absent(live_pairs(self.live@), key@);
                    lemma_push(live_pairs(self.live@), key@, value@);
                }
                let e = Setting { key, value };
                self.live.push(e);
                proof {
                    assert(live_pairs(self.live@) =~= live_pairs(old(self).live@).push(
                        (key@, value@),
                    ));
                }
            },
        }
    }

    /// Writes `value` under `key` in transaction `tx`.
    fn put_pending(&mut self, tx: String, key: String, value: String)
        requires
            old(self).wf(),
        ensures
            final(self).wf(),
            final(self)@ == (StoreModel {
                pending: old(self)@.pending.insert((tx@, key@), value@),
                ..old(self)@
            }),
    {
        match self.find_pending(&tx, &key) {
            Some(i) => {
                proof {
                    lemma_update(pending_pairs(self.pending@), i as int, value@);
                }
                let e = PendingWrite { tx, key, value };
                self.pending.set(i, e);
                proof {
                    assert(pending_pairs(self.pending@) =~= pending_pairs(
                        old(self).pending@,
                    ).update(i as int, ((tx@, key@), value@)));
                }
            },
            None => {
                proof {
                    lemma_absent(pending_pairs(self.pending@), (tx@, key@));
                    lemma_push(pending_pairs(self.pending@), (tx@, key@), value@);
                }
                let e = PendingWrite { tx, key, value };
                self.pending.push(e);
                proof {
                    assert(pending_pairs(self.pending@) =~= pending_pairs(
                        old(self).pending@,
                    ).push(((tx@, key@), value@)));
                }
            },
        }
    }

    /// Writes `value` under `key` in tier `committed`. A key that Live does not
    /// hold yet is refused unless `allow_new` is set.
    pub fn set(&mut self, key: String, value: String, committed: &Committed, allow_new: bool) -> (r:
        Result<(), Error>)
        requires
            old(self).wf(),
        ensures
            final(self).wf(),
            r is Err <==> !allow_new && !old(self)@.live.contains_key(key@),
            r is Err ==> r == Err::<(), Error>(Error::NewKeyRejected { key }) && final(self)@ == old(self)@,
            r is Ok ==> final(self)@ == match *committed {
                Committed::Live => StoreModel { live: old(self)@.live.insert(key@, value@), ..old(self)@ },
                Committed::Pending { tx } => StoreModel {
                    pending: old(self)@.pending.insert((tx@, key@), value@),
                    ..old(self)@
                },
            },
    {
        if !allow_new {
            match self.find_live(&key) {
                Some(i) => {
                    proof {
                        lemma_index(live_pairs(self.live@), i as int);
                    }
                },
                None => {
                    proof {
                        lemma_absent(live_pairs(self.live@), key@);
                    }
                    return Err(Error::NewKeyRejected { key });
                },
            }
        }
        match committed {
            Committed::Live => self.put_live(key, value),
            Committed::Pending { tx } => self.put_pending(tx.clone(), key, value),
        }
        Ok(())
    }

    /// Whether transaction `tx` holds any write.
    pub fn has_pending(&self, tx: &String) -> (r: bool)
        requires
            self.wf(),
        ensures
            r == transactions(self@.pending).contains(tx@),
    {
        let ghost pp = pending_pairs(self.pending@);
        let mut i: usize = 0;
        while i < self.pending.len()
            invariant
                pp == pending_pairs(self.pending@),
                keys_unique(pp),
                i <= self.pending@.len(),
                forall|j: int| 0 <= j < i ==> self.pending@[j].tx@ != tx@,
            decreases self.pending@.len() - i,
        {
            if self.pending[i].tx == *tx {
                proof {
                    lemma_index(pp, i as int);
                    assert(self@.pending.contains_key((tx@, self.pending@[i as int].key@)));
                }
                return true;
            }
            i = i + 1;
        }
        proof {
            assert forall|k: Seq<char>| !self@.pending.contains_key((tx@, k)) by {
                assert forall|j: int| 0 <= j < pp.len() implies pp[j].0 != (tx@, k) by {
                    assert(pp[j].0.0 == self.pending@[j].tx@);
                }
                lemma_absent(pp, (tx@, k));
            }
        }
        false
    }

    /// Discards every write of transaction `tx` and returns the keys it held.
    pub fn delete_transaction(&mut self, tx: &String) -> (r: Vec<String>)
        requires
            old(self).wf(),
        ensures
            final(self).wf(),
            final(self)@ == old(self)@.delete(tx@),
            strs(r@).no_duplicates(),
            strs(r@).to_set() == tx_pending(old(self)@.pending, tx@).dom(),
    {
        let ghost pp = pending_pairs(self.pending@);
        let mut kept: Vec<PendingWrite> = Vec::new();
        let mut removed: Vec<String> = Vec::new();
        proof {
            lemma_empty(pending_pairs(kept@));
            lemma_empty(pp.take(0));
            assert(drop_tx(assoc_map(pp.take(0)), tx@) =~= Map::empty());
            assert(strs(removed@).to_set() =~= tx_pending(assoc_map(pp.take(0)), tx@).dom());
        }
        let mut i: usize = 0;
        while i < self.pending.len()
            invariant
                pp == pending_pairs(self.pending@),
                keys_unique(pp),
                i <= pp.len(),
                keys_unique(pending_pairs(kept@)),
                assoc_map(pending_pairs(kept@)) == drop_tx(assoc_map(pp.take(i as int)), tx@),
                strs(removed@).no_duplicates(),
                strs(removed@).to_set() == tx_pending(assoc_map(pp.take(i as int)), tx@).dom(),
            decreases self.pending@.len() - i,
        {
            proof {
                lemma_take_step(pp, i as int);
            }
            let ghost before = assoc_map(pp.take(i as int));
            let ghost after = assoc_map(pp.take(i as int + 1));
            let e = &self.pending[i];
            assert(pp[i as int] == ((e.tx@, e.key@), e.value@));
            if e.tx == *tx {
                let ghost old_removed = strs(removed@);
                removed.push(e.key.clone());
                proof {
                    assert(strs(removed@) =~= old_removed.push(e.key@));
                    lemma_push_fresh(old_removed, e.key@);
                    assert(drop_tx(after, tx@) =~= drop_tx(before, tx@));
                    assert(tx_pending(after, tx@).dom() =~= tx_pending(before, tx@).dom().insert(
                        e.key@,
                    ));
                }
            } else {
                let ghost old_kept = pending_pairs(kept@);
                proof {
                    lemma_push(old_kept, (e.tx@, e.key@), e.value@);
                }
                kept.push(PendingWrite { tx: e.tx.clone(), key: e.key.clone(), value: e.value.clone() });
                proof {
                    assert(pending_pairs(kept@) =~= old_kept.push(((e.tx@, e.key@), e.value@)));
                    assert(drop_tx(after, tx@) =~= drop_tx(before, tx@).insert(
                        (e.tx@, e.key@),
                        e.value@,
                    ));
                    assert(tx_pending(after, tx@) =~= tx_pending(before, tx@));
                }
            }
            i = i + 1;
        }
        proof {
            lemma_take_all(pp);
        }
        self.pending = kept;
        removed
    }

    /// Promotes every write of transaction `tx` to Live and discards the
    /// transaction. Returns the keys whose Live value changed; a transaction
    /// that holds no write is refused.
    pub fn commit_transaction(&mut self, tx: &String) -> (r: Result<Vec<String>, Error>)
        requires
            old(self).wf(),
        ensures
            final(self).wf(),
            r is Err <==> !transactions(old(self)@.pending).contains(tx@),
            r is Err ==> r == Err::<Vec<String>, Error>(Error::CommitWithNoPending) && final(self)@
                == old(self)@,
            r matches Ok(keys) ==> final(self)@ == old(self)@.commit(tx@) && strs(keys@).no_duplicates()
                && strs(keys@).to_set() == changed_keys(
                old(self)@.live,
                tx_pending(old(self)@.pending, tx@),
            ),
    {
        if !self.has_pending(tx) {
            return Err(Error::CommitWithNoPending);
        }
        let ghost pp = pending_pairs(self.pending@);
        let ghost old_live = self@.live;
        let mut changed: Vec<String> = Vec::new();
        proof {
            lemma_empty(pp.take(0));
            assert(tx_pending(assoc_map(pp.take(0)), tx@) =~= Map::empty());
            assert(old_live.union_prefer_right(Map::empty()) =~= old_live);
            assert(strs(changed@).to_set() =~= changed_keys(old_live, Map::empty()));
        }
        let mut i: usize = 0;
        while i < self.pending.len()
            invariant
                self.wf(),
                pp == pending_pairs(self.pending@),
                keys_unique(pp),
                i <= pp.len(),
                self@ == (StoreModel {
                    live: old_live.union_prefer_right(tx_pending(assoc_map(pp.take(i as int)), tx@)),
                    ..old(self)@
                }),
                old_live == old(self)@.live,
                strs(changed@).no_duplicates(),
                strs(changed@).to_set() == changed_keys(
                    old_live,
                    tx_pending(assoc_map(pp.take(i as int)), tx@),
                ),
            decreases self.pending@.len() - i,
        {
            proof {
                lemma_take_step(pp, i as int);
            }
            let ghost w = tx_pending(assoc_map(pp.take(i as int)), tx@);
            let ghost w2 = tx_pending(assoc_map(pp.take(i as int + 1)), tx@);
            assert(pp[i as int] == ((self.pending@[i as int].tx@, self.pending@[i as int].key@),
                self.pending@[i as int].value@));
            if self.pending[i].tx == *tx {
                let key = self.pending[i].key.clone();
                let value = self.pending[i].value.clone();
                proof {
                    assert(w2 =~= w.insert(key@, value@));
                    assert(!w.contains_key(key@));
                }
                let cur = self.get(&key, &Committed::Live);
                let differs = match cur {
                    Some(v) => !(v == value),
                    None => true,
                };
                proof {
                    assert(changed_keys(old_live, w2) =~= if differs {
                        changed_keys(old_live, w).insert(key@)
                    } else {
                        changed_keys(old_live, w)
                    });
                }
                if differs {
                    let ghost old_changed = strs(changed@);
                    changed.push(key.clone());
                    proof {
                        assert(strs(changed@) =~= old_changed.push(key@));
                        lemma_push_fresh(old_changed, key@);
                    }
                }
                self.put_live(key, value);
                proof {
                    assert(old_live.union_prefer_right(w).insert(key@, value@)
                        =~= old_live.union_prefer_right(w2));
                }
            } else {
                proof {
                    assert(w2 =~= w);
                }
            }
            i = i + 1;
        }
        proof {
            lemma_take_all(pp);
        }
        let _ = self.delete_transaction(tx);
        Ok(changed)
    }

    /// Whether the schema lets a settings write name `key`.
    pub fn in_schema(&self, key: &String) -> (r: bool)
        ensures
            r == self@.schema.contains(key@),
    {
        contains_str(&self.schema, key)
    }

    /// Merges `settings` into transaction `tx`. Fails with `NewKey`, writing
    /// nothing, when one of its keys is not in the schema; the error names the
    /// first such key.
    pub fn set_settings(&mut self, settings: &Vec<Setting>, tx: &String) -> (r: Result<(), Error>)
        requires
            old(self).wf(),
        ensures
            final(self).wf(),
            r is Ok <==> all_known(old(self)@.schema, settings@),
            r matches Err(e) ==> (final(self)@ == old(self)@ && (exists|i: int|
                first_unknown(old(self)@.schema, settings@, i) && e == (Error::NewKey {
                    key: settings@[i].key,
                }))),
            r is Ok ==> final(self)@ == old(self)@.write(tx@, writes_of(settings@)),
    {
        let mut i: usize = 0;
        while i < settings.len()
            invariant
                i <= settings@.len(),
                self.wf(),
                *self == *old(self),
                forall|j: int| 0 <= j < i ==> self@.schema.contains(#[trigger] settings@[j].key@),
            decreases settings@.len() - i,
        {
            if !self.in_schema(&settings[i].key) {
                assert(first_unknown(old(self)@.schema, settings@, i as int));
                return Err(Error::NewKey { key: settings[i].key.clone() });
            }
            i = i + 1;
        }
        let mut i: usize = 0;
        proof {
            assert(writes_of(settings@.take(0)) =~= Map::empty());
            assert(lift_tx(tx@, Map::empty()) =~= Map::empty());
            assert(old(self)@.pending.union_prefer_right(Map::empty()) =~= old(self)@.pending);
        }
        while i < settings.len()
            invariant
                self.wf(),
                i <= settings@.len(),
                self@ == old(self)@.write(tx@, writes_of(settings@.take(i as int))),
            decreases settings@.len() - i,
        {
            let ghost w = writes_of(settings@.take(i as int));
            assert(settings@.take(i as int + 1).drop_last() =~= settings@.take(i as int));
            let ghost w2 = writes_of(settings@.take(i as int + 1));
            assert(w2 == w.insert(settings@[i as int].key@, settings@[i as int].value@));
            self.put_pending(tx.clone(), settings[i].key.clone(), settings[i].value.clone());
            proof {
                assert(old(self)@.pending.union_prefer_right(lift_tx(tx@, w)).insert(
                    (tx@, settings@[i as int].key@),
                    settings@[i as int].value@,
                ) =~= old(self)@.pending.union_prefer_right(lift_tx(tx@, w2)));
            }
            i = i + 1;
        }
        assert(settings@.take(settings@.len() as int) =~= settings@);
        Ok(())
    }

    /// The names of the transactions that hold at least one write.
    pub fn list_transactions(&self) -> (r: Vec<String>)
        requires
            self.wf(),
        ensures
            strs(r@).no_duplicates(),
            strs(r@).to_set() == transactions(self@.pending),
    {
        let ghost pp = pending_pairs(self.pending@);
        let mut r: Vec<String> = Vec::new();
        let mut i: usize = 0;
        proof {
            assert(strs(r@).to_set() =~= Set::new(
                |t: Seq<char>| exists|j: int| 0 <= j < 0 && self.pending@[j].tx@ == t,
            ));
        }
        while i < self.pending.len()
            invariant
                pp == pending_pairs(self.pending@),
                i <= self.pending@.len(),
                strs(r@).no_duplicates(),
                strs(r@).to_set() == Set::new(
                    |t: Seq<char>| exists|j: int| 0 <= j < i && self.pending@[j].tx@ == t,
                ),
            decreases self.pending@.len() - i,
        {
            let ghost before = strs(r@);
            let t = &self.pending[i];
            if !contains_str(&r, &t.tx) {
                r.push(t.tx.clone());
                proof {
                    assert(strs(r@) =~= before.push(t.tx@));
                    lemma_push_fresh(before, t.tx@);
                }
            }
            proof {
                assert(strs(r@).to_set() =~= Set::new(
                    |x: Seq<char>| exists|j: int| 0 <= j < i + 1 && self.pending@[j].tx@ == x,
                )) by {
                    assert(strs(r@).to_set() =~= before.to_set().insert(t.tx@)) by {
                        if before.contains(t.tx@) {
                            assert(before.to_set().insert(t.tx@) =~= before.to_set());
                        }
                    }
                    assert forall|x: Seq<char>|
                        (exists|j: int| 0 <= j < i + 1 && self.pending@[j].tx@ == x) implies (
                        before.to_set().insert(t.tx@).contains(x)) by {
                        let j = choose|j: int| 0 <= j < i + 1 && self.pending@[j].tx@ == x;
                        if j < i {
                            assert(before.to_set().contains(x));
                        }
                    }
                }
            }
            i = i + 1;
        }
        proof {
            let ghost seen = Set::new(
                |t: Seq<char>| exists|j: int| 0 <= j < i && self.pending@[j].tx@ == t,
            );
            assert forall|t: Seq<char>| transactions(self@.pending).contains(t) implies seen.contains(
                t,
            ) by {
                let k = choose|k: Seq<char>| self@.pending.contains_key((t, k));
                assert(has_key(pp, (t, k)));
                let j = choose|j: int| 0 <= j < pp.len() && pp[j].0 == (t, k);
                assert(pp[j].0.0 == self.pending@[j].tx@);
                assert(self.pending@[j].tx@ == t);
            }
            assert forall|t: Seq<char>| seen.contains(t) implies transactions(
                self@.pending,
            ).contains(t) by {
                let j = choose|j: int| 0 <= j < i && self.pending@[j].tx@ == t;
                assert(pp[j].0 == (t, self.pending@[j].key@));
                assert(has_key(pp, (t, self.pending@[j].key@)));
                assert(self@.pending.contains_key((t, self.pending@[j].key@)));
            }
            assert(strs(r@).to_set() =~= transactions(self@.pending));
        }
        r
    }

    /// The entries of tier `committed` whose key starts with `prefix`.
    pub fn get_prefix(&self, prefix: &String, committed: &Committed) -> (r: Vec<Setting>)
        requires
            self.wf(),
        ensures
            keys_unique(live_pairs(r@)),
            assoc_map(live_pairs(r@)) == under_prefix(self@.scope(*committed), prefix@),
    {
        let mut r: Vec<Setting> = Vec::new();
        proof {
            lemma_empty(live_pairs(r@));
        }
        match committed {
            Committed::Live => {
                let ghost lp = live_pairs(self.live@);
                proof {
                    lemma_empty(lp.take(0));
                    assert(under_prefix(assoc_map(lp.take(0)), prefix@) =~= Map::empty());
                }
                let mut i: usize = 0;
                while i < self.live.len()
                    invariant
                        lp == live_pairs(self.live@),
                        keys_unique(lp),
                        i <= lp.len(),
                        keys_unique(live_pairs(r@)),
                        assoc_map(live_pairs(r@)) == under_prefix(assoc_map(lp.take(i as int)), prefix@),
                    decreases lp.len() - i,
                {
                    proof {
                        lemma_take_step(lp, i as int);
                    }
                    let ghost before = assoc_map(lp.take(i as int));
                    let e = &self.live[i];
                    assert(lp[i as int] == (e.key@, e.value@));
                    if has_prefix(&e.key, prefix) {
                        let ghost old_r = live_pairs(r@);
                        proof {
                            lemma_push(old_r, e.key@, e.value@);
                        }
                        r.push(Setting { key: e.key.clone(), value: e.value.clone() });
                        proof {
                            assert(live_pairs(r@) =~= old_r.push((e.key@, e.value@)));
                            assert(under_prefix(before.insert(e.key@, e.value@), prefix@)
                                =~= under_prefix(before, prefix@).insert(e.key@, e.value@));
                        }
                    } else {
                        assert(under_prefix(before.insert(e.key@, e.value@), prefix@) =~= under_prefix(
                            before,
                            prefix@,
                        ));
                    }
                    i = i + 1;
                }
                proof {
                    lemma_take_all(lp);
                }
            },
            Committed::Pending { tx } => {
                let ghost pp = pending_pairs(self.pending@);
                proof {
                    lemma_empty(pp.take(0));
                    assert(under_prefix(tx_pending(assoc_map(pp.take(0)), tx@), prefix@) =~= Map::empty());
                }
                let mut i: usize = 0;
                while i < self.pending.len()
                    invariant
                        pp == pending_pairs(self.pending@),
                        keys_unique(pp),
                        i <= pp.len(),
                        keys_unique(live_pairs(r@)),
                        assoc_map(live_pairs(r@)) == under_prefix(
                            tx_pending(assoc_map(pp.take(i as int)), tx@),
                            prefix@,
                        ),
                    decreases pp.len() - i,
                {
                    proof {
                        lemma_take_step(pp, i as int);
                    }
                    let ghost before = tx_pending(assoc_map(pp.take(i as int)), tx@);
                    let ghost after = tx_pending(assoc_map(pp.take(i as int + 1)), tx@);
                    let e = &self.pending[i];
                    assert(pp[i as int] == ((e.tx@, e.key@), e.value@));
                    if e.tx == *tx && has_prefix(&e.key, prefix) {
                        let ghost old_r = live_pairs(r@);
                        proof {
                            assert(after =~= before.insert(e.key@, e.value@));
                            lemma_push(old_r, e.key@, e.value@);
                        }
                        r.push(Setting { key: e.key.clone(), value: e.value.clone() });
                        proof {
                            assert(live_pairs(r@) =~= old_r.push((e.key@, e.value@)));
                            assert(under_prefix(after, prefix@) =~= under_prefix(before, prefix@).insert(
                                e.key@,
                                e.value@,
                            ));
                        }
                    } else {
                        proof {
                            if e.tx@ == tx@ {
                                assert(after =~= before.insert(e.key@, e.value@));
                            } else {
                                assert(after =~= before);
                            }
                            assert(under_prefix(after, prefix@) =~= under_prefix(before, prefix@));
                        }
                    }
                    i = i + 1;
                }
                proof {
                    lemma_take_all(pp);
                }
            },
        }
        r
    }

    /// Annotates `key` with `value` under metadata kind `kind`.
    pub fn set_metadata(&mut self, key: String, kind: String, value: String)
        requires
            old(self).wf(),
        ensures
            final(self).wf(),
            final(self)@ == (StoreModel {
                metadata: old(self)@.metadata.insert((key@, kind@, value@)),
                ..old(self)@
            }),
    {
        let ghost before = meta_triples(self.metadata@);
        self.metadata.push(Metadata { key, kind, value });
        proof {
            assert(meta_triples(self.metadata@) =~= before.push((key@, kind@, value@)));
            before.lemma_push_to_set_commute((key@, kind@, value@));
        }
    }

    /// The values that `key` carries under metadata kind `kind`, each once.
    pub fn get_metadata(&self, key: &String, kind: &String) -> (r: Vec<String>)
        ensures
            strs(r@).no_duplicates(),
            strs(r@).to_set() == meta_values(self@.metadata, key@, kind@),
    {
        let ghost mt = meta_triples(self.metadata@);
        let mut r: Vec<String> = Vec::new();
        let mut i: usize = 0;
        proof {
            assert(strs(r@).to_set() =~= Set::new(
                |v: Seq<char>| mt.take(0).contains((key@, kind@, v)),
            ));
        }
        while i < self.metadata.len()
            invariant
                mt == meta_triples(self.metadata@),
                i <= mt.len(),
                strs(r@).no_duplicates(),
                strs(r@).to_set() == Set::new(
                    |v: Seq<char>| mt.take(i as int).contains((key@, kind@, v)),
                ),
            decreases mt.len() - i,
        {
            let ghost before = strs(r@);
            let e = &self.metadata[i];
            assert(mt.take(i as int + 1) =~= mt.take(i as int).push((e.key@, e.kind@, e.value@)));
            if e.key == *key && e.kind == *kind && !contains_str(&r, &e.value) {
                r.push(e.value.clone());
                proof {
                    assert(strs(r@) =~= before.push(e.value@));
                    lemma_push_fresh(before, e.value@);
                }
            }
            proof {
                mt.take(i as int).lemma_push_to_set_commute((e.key@, e.kind@, e.value@));
                assert(strs(r@).to_set() =~= Set::new(
                    |v: Seq<char>| mt.take(i as int + 1).contains((key@, kind@, v)),
                )) by {
                    assert forall|v: Seq<char>| mt.take(i as int + 1).contains((key@, kind@, v))
                        implies strs(r@).to_set().contains(v) by {
                        assert(mt.take(i as int + 1).to_set().contains((key@, kind@, v)));
                        if mt.take(i as int).contains((key@, kind@, v)) {
                            assert(before.to_set().contains(v));
                            assert(before.contains(v));
                            let j = choose|j: int| 0 <= j < before.len() && before[j] == v;
                            assert(strs(r@)[j] == v);
                        } else {
                            assert(v == e.value@);
                            if before.contains(v) {
                                let j = choose|j: int| 0 <= j < before.len() && before[j] == v;
                                assert(strs(r@)[j] == v);
                            }
                        }
                    }
                    assert forall|v: Seq<char>| strs(r@).to_set().contains(v) implies mt.take(
                        i as int + 1,
                    ).contains((key@, kind@, v)) by {
                        if before.contains(v) {
                            assert(mt.take(i as int).to_set().contains((key@, kind@, v)));
                        } else {
                            assert(strs(r@) =~= before.push(e.value@));
                            assert(v == e.value@);
                        }
                        assert(mt.take(i as int + 1).to_set().contains((key@, kind@, v)));
                    }
                }
            }
            i = i + 1;
        }
        proof {
            assert(mt.take(mt.len() as int) =~= mt);
            assert(strs(r@).to_set() =~= meta_values(self@.metadata, key@, kind@));
        }
        r
    }

    /// The keys that carry metadata kind `kind`, each with one of its values.
    pub fn metadata_of_kind(&self, kind: &String) -> (r: Vec<Setting>)
        ensures
            live_pairs(r@).to_set() == Set::new(
                |p: (Seq<char>, Seq<char>)| self@.metadata.contains((p.0, kind@, p.1)),
            ),
    {
        let ghost mt = meta_triples(self.metadata@);
        let mut r: Vec<Setting> = Vec::new();
        let mut i: usize = 0;
        proof {
            assert(live_pairs(r@).to_set() =~= Set::new(
                |p: (Seq<char>, Seq<char>)| mt.take(0).contains((p.0, kind@, p.1)),
            ));
        }
        while i < self.metadata.len()
            invariant
                mt == meta_triples(self.metadata@),
                i <= mt.len(),
                live_pairs(r@).to_set() == Set::new(
                    |p: (Seq<char>, Seq<char>)| mt.take(i as int).contains((p.0, kind@, p.1)),
                ),
            decreases mt.len() - i,
        {
            let ghost before = live_pairs(r@);
            let e = &self.metadata[i];
            assert(mt.take(i as int + 1) =~= mt.take(i as int).push((e.key@, e.kind@, e.value@)));
            if e.kind == *kind {
                r.push(Setting { key: e.key.clone(), value: e.value.clone() });
                proof {
                    assert(live_pairs(r@) =~= before.push((e.key@, e.value@)));
                    before.lemma_push_to_set_commute((e.key@, e.value@));
                }
            }
            proof {
                mt.take(i as int).lemma_push_to_set_commute((e.key@, e.kind@, e.value@));
                assert(live_pairs(r@).to_set() =~= Set::new(
                    |p: (Seq<char>, Seq<char>)| mt.take(i as int + 1).contains((p.0, kind@, p.1)),
                )) by {
                    assert forall|p: (Seq<char>, Seq<char>)|
                        mt.take(i as int + 1).contains((p.0, kind@, p.1)) implies live_pairs(
                        r@,
                    ).to_set().contains(p) by {
                        assert(mt.take(i as int + 1).to_set().contains((p.0, kind@, p.1)));
                        if mt.take(i as int).contains((p.0, kind@, p.1)) {
                            assert(before.to_set().contains(p));
                        }
                    }
                    assert forall|p: (Seq<char>, Seq<char>)| live_pairs(r@).to_set().contains(p)
                        implies mt.take(i as int + 1).contains((p.0, kind@, p.1)) by {
                        if before.to_set().contains(p) {
                            assert(mt.take(i as int).to_set().contains((p.0, kind@, p.1)));
                        }
                        assert(mt.take(i as int + 1).to_set().contains((p.0, kind@, p.1)));
                    }
                }
            }
            i = i + 1;
        }
        proof {
            assert(mt.take(mt.len() as int) =~= mt);
            assert(live_pairs(r@).to_set() =~= Set::new(
                |p: (Seq<char>, Seq<char>)| self@.metadata.contains((p.0, kind@, p.1)),
            ));
        }
        r
    }

    /// Every key that Live holds, each once.
    pub fn live_keys(&self) -> (r: Vec<String>)
        requires
            self.wf(),
        ensures
            strs(r@).no_duplicates(),
            strs(r@).to_set() == self@.live.dom(),
    {
        let ghost lp = live_pairs(self.live@);
        let mut r: Vec<String> = Vec::new();
        proof {
            lemma_empty(lp.take(0));
            assert(strs(r@).to_set() =~= assoc_map(lp.take(0)).dom());
        }
        let mut i: usize = 0;
        while i < self.live.len()
            invariant
                lp == live_pairs(self.live@),
                keys_unique(lp),
                i <= lp.len(),
                strs(r@).no_duplicates(),
                strs(r@).to_set() == assoc_map(lp.take(i as int)).dom(),
            decreases lp.len() - i,
        {
            proof {
                lemma_take_step(lp, i as int);
            }
            let ghost before = strs(r@);
            assert(lp[i as int] == (self.live@[i as int].key@, self.live@[i as int].value@));
            r.push(self.live[i].key.clone());
            proof {
                assert(strs(r@) =~= before.push(self.live@[i as int].key@));
                lemma_push_fresh(before, self.live@[i as int].key@);
                assert(assoc_map(lp.take(i as int + 1)).dom() =~= assoc_map(lp.take(i as int)).dom().insert(
                    self.live@[i as int].key@,
                ));
            }
            i = i + 1;
        }
        proof {
            lemma_take_all(lp);
        }
        r
    }

    /// Every Live entry.
    pub fn live_entries(&self) -> (r: Vec<Setting>)
        requires
            self.wf(),
        ensures
            keys_unique(live_pairs(r@)),
            assoc_map(live_pairs(r@)) == self@.live,
    {
        let mut r: Vec<Setting> = Vec::new();
        let mut i: usize = 0;
        while i < self.live.len()
            invariant
                i <= self.live@.len(),
                live_pairs(r@) == live_pairs(self.live@).take(i as int),
            decreases self.live@.len() - i,
        {
            let e = &self.live[i];
            let ghost before = r@;
            r.push(Setting { key: e.key.clone(), value: e.value.clone() });
            assert(live_pairs(r@) =~= live_pairs(before).push((e.key@, e.value@)));
            assert(live_pairs(r@) =~= live_pairs(self.live@).take(i as int + 1));
            i = i + 1;
        }
        assert(live_pairs(r@) =~= live_pairs(self.live@));
        r
    }

    /// Every pending write of every transaction.
    pub fn pending_entries(&self) -> (r: Vec<PendingWrite>)
        requires
            self.wf(),
        ensures
            keys_unique(pending_pairs(r@)),
            assoc_map(pending_pairs(r@)) == self@.pending,
    {
        let mut r: Vec<PendingWrite> = Vec::new();
        let mut i: usize = 0;
        while i < self.pending.len()
            invariant
                i <= self.pending@.len(),
                pending_pairs(r@) == pending_pairs(self.pending@).take(i as int),
            decreases self.pending@.len() - i,
        {
            let e = &self.pending[i];
            let ghost before = r@;
            r.push(PendingWrite { tx: e.tx.clone(), key: e.key.clone(), value: e.value.clone() });
            assert(pending_pairs(r@) =~= pending_pairs(before).push(((e.tx@, e.key@), e.value@)));
            assert(pending_pairs(r@) =~= pending_pairs(self.pending@).take(i as int + 1));
            i = i + 1;
        }
        assert(pending_pairs(r@) =~= pending_pairs(self.pending@));
        r
    }

    /// Every metadata annotation.
    pub fn metadata_entries(&self) -> (r: Vec<Metadata>)
        ensures
            meta_triples(r@).to_set() == self@.metadata,
    {
        let mut r: Vec<Metadata> = Vec::new();
        let mut i: usize = 0;
        while i < self.metadata.len()
            invariant
                i <= self.metadata@.len(),
                meta_triples(r@) == meta_triples(self.metadata@).take(i as int),
            decreases self.metadata@.len() - i,
        {
            let e = &self.metadata[i];
            let ghost before = r@;
            r.push(Metadata { key: e.key.clone(), kind: e.kind.clone(), value: e.value.clone() });
            assert(meta_triples(r@) =~= meta_triples(before).push((e.key@, e.kind@, e.value@)));
            assert(meta_triples(r@) =~= meta_triples(self.metadata@).take(i as int + 1));
            i = i + 1;
        }
        assert(meta_triples(r@) =~= meta_triples(self.metadata@));
        r
    }

    /// The keys of the schema.
    pub fn schema_keys(&self) -> (r: Vec<String>)
        ensures
            strs(r@).to_set() == self@.schema,
    {
        let mut r: Vec<String> = Vec::new();
        let mut i: usize = 0;
        while i < self.schema.len()
            invariant
                i <= self.schema@.len(),
                strs(r@) == strs(self.schema@).take(i as int),
            decreases self.schema@.len() - i,
        {
            let ghost before = r@;
            r.push(self.schema[i].clone());
            assert(strs(r@) =~= strs(before).push(self.schema@[i as int]@));
            assert(strs(r@) =~= strs(self.schema@).take(i as int + 1));
            i = i + 1;
        }
        assert(strs(r@) =~= strs(self.schema@));
        r
    }

    /// The keys of tier `committed` that start with `prefix`, each once.
    pub fn list_keys(&self, prefix: &String, committed: &Committed) -> (r: Vec<String>)
        requires
            self.wf(),
        ensures
            strs(r@).no_duplicates(),
            strs(r@).to_set() == under_prefix(self@.scope(*committed), prefix@).dom(),
    {
        let entries = self.get_prefix(prefix, committed);
        let ghost lp = live_pairs(entries@);
        let mut r: Vec<String> = Vec::new();
        proof {
            lemma_empty(lp.take(0));
            assert(strs(r@).to_set() =~= assoc_map(lp.take(0)).dom());
        }
        let mut i: usize = 0;
        while i < entries.len()
            invariant
                lp == live_pairs(entries@),
                keys_unique(lp),
                i <= lp.len(),
                strs(r@).no_duplicates(),
                strs(r@).to_set() == assoc_map(lp.take(i as int)).dom(),
            decreases lp.len() - i,
        {
            proof {
                lemma_take_step(lp, i as int);
            }
            let ghost before = strs(r@);
            assert(lp[i as int] == (entries@[i as int].key@, entries@[i as int].value@));
            r.push(entries[i].key.clone());
            proof {
                assert(strs(r@) =~= before.push(entries@[i as int].key@));
                lemma_push_fresh(before, entries@[i as int].key@);
                assert(assoc_map(lp.take(i as int + 1)).dom() =~= assoc_map(lp.take(i as int)).dom().insert(
                    entries@[i as int].key@,
                ));
            }
            i = i + 1;
        }
        proof {
            lemma_take_all(lp);
        }
        r
    }
}

} // verus!
