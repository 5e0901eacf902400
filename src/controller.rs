//! The operations that the HTTP layer calls, one per route, with the query
//! parameters already taken out of the request.
use vstd::prelude::*;
use crate::apply::{apply_changes as resolve_services, resolvable, services_of, some_unresolvable};
use crate::assoc::{assoc_map, keys_unique, lemma_empty, lemma_push};
use crate::error::{input_named, kind_of, Error, ErrorKind};
use crate::query::{comma_separated, split_commas, transaction_name, tx_name_of};
use crate::store::{
    all_known, changed_keys, live_pairs, meta_values, starts_with, strs, transactions, tx_pending,
    under_prefix, writes_of, Committed, DataStore, Setting, StoreModel,
};

verus! {

/// The namespace that settings keys live in.
pub open spec fn settings_ns() -> Seq<char> {
    seq!['s', 'e', 't', 't', 'i', 'n', 'g', 's', '.']
}

/// The parameter that selects keys.
pub open spec fn keys_word() -> Seq<char> {
    seq!['k', 'e', 'y', 's']
}

/// The parameter that selects a prefix.
pub open spec fn prefix_word() -> Seq<char> {
    seq!['p', 'r', 'e', 'f', 'i', 'x']
}

/// The parameter that selects names.
pub open spec fn names_word() -> Seq<char> {
    seq!['n', 'a', 'm', 'e', 's']
}

/// The transaction that an optional request parameter names.
pub open spec fn tx_of(tx: Option<&str>) -> Seq<char> {
    tx_name_of(
        match tx {
            Some(t) => Some(t@),
            None => None,
        },
    )
}

/// The entries of `m` whose key is in `keys`.
pub open spec fn restrict_keys(m: Map<Seq<char>, Seq<char>>, keys: Set<Seq<char>>) -> Map<
    Seq<char>,
    Seq<char>,
> {
    Map::new(|k: Seq<char>| m.contains_key(k) && keys.contains(k), |k: Seq<char>| m[k])
}

/// The (key, value) annotations of kind `kind` on the keys in `keys`.
pub open spec fn meta_pairs(
    metadata: Set<(Seq<char>, Seq<char>, Seq<char>)>,
    kind: Seq<char>,
    keys: Set<Seq<char>>,
) -> Set<(Seq<char>, Seq<char>)> {
    Set::new(|p: (Seq<char>, Seq<char>)| keys.contains(p.0) && metadata.contains((p.0, kind, p.1)))
}

fn settings_namespace() -> (r: String)
    ensures
        r@ == settings_ns(),
{
    let s = "settings.";
    proof {
        reveal_strlit("settings.");
    }
    let r = s.to_owned();
    assert(r@ =~= settings_ns());
    r
}

/// The Live values of the keys in `keys` that Live holds.
fn live_values(store: &DataStore, keys: &Vec<String>) -> (r: Vec<Setting>)
    requires
        store.wf(),
        strs(keys@).no_duplicates(),
    ensures
        keys_unique(live_pairs(r@)),
        assoc_map(live_pairs(r@)) == restrict_keys(store@.live, strs(keys@).to_set()),
{
    let mut r: Vec<Setting> = Vec::new();
    let mut i: usize = 0;
    proof {
        lemma_empty(live_pairs(r@));
        assert(restrict_keys(store@.live, strs(keys@).take(0).to_set()) =~= Map::empty());
    }
    while i < keys.len()
        invariant
            store.wf(),
            strs(keys@).no_duplicates(),
            i <= keys@.len(),
            keys_unique(live_pairs(r@)),
            assoc_map(live_pairs(r@)) == restrict_keys(store@.live, strs(keys@).take(i as int).to_set()),
        decreases keys@.len() - i,
    {
        let k = &keys[i];
        let ghost prev = strs(keys@).take(i as int);
        proof {
            assert(strs(keys@).take(i as int + 1) =~= prev.push(k@));
            prev.lemma_push_to_set_commute(k@);
            assert(!prev.contains(k@)) by {
                if prev.contains(k@) {
                    let j = choose|j: int| 0 <= j < prev.len() && prev[j] == k@;
                    assert(strs(keys@)[j] == strs(keys@)[i as int]);
                }
            }
        }
        match store.get(k, &Committed::Live) {
            Some(v) => {
                let ghost old_r = live_pairs(r@);
                proof {
                    lemma_push(old_r, k@, v@);
                }
                r.push(Setting { key: k.clone(), value: v });
                proof {
                    assert(live_pairs(r@) =~= old_r.push((k@, v@)));
                    assert(restrict_keys(store@.live, prev.to_set().insert(k@)) =~= restrict_keys(
                        store@.live,
                        prev.to_set(),
                    ).insert(k@, v@));
                }
            },
            None => {
                assert(restrict_keys(store@.live, prev.to_set().insert(k@)) =~= restrict_keys(
                    store@.live,
                    prev.to_set(),
                ));
            },
        }
        i = i + 1;
    }
    assert(strs(keys@).take(keys@.len() as int) =~= strs(keys@));
    r
}

/// The Live settings. `keys` (comma-separated full key names) selects those
/// keys; otherwise `prefix` (without the `settings.` namespace) selects the
/// settings under it; otherwise all settings are returned. An empty `keys` or
/// `prefix` is refused with `EmptyInput`.
pub fn get_settings(store: &DataStore, keys: Option<&str>, prefix: Option<&str>) -> (r: Result<
    Vec<Setting>,
    Error,
>)
    requires
        store.wf(),
    ensures
        r is Err <==> (keys is Some && keys.unwrap()@.len() == 0) || (keys is None && prefix is Some
            && prefix.unwrap()@.len() == 0),
        r matches Err(e) ==> e is EmptyInput && kind_of(e) == ErrorKind::InvalidInput && input_named(
            e,
            if keys is Some {
                keys_word()
            } else {
                prefix_word()
            },
        ),
        r matches Ok(v) ==> keys_unique(live_pairs(v@)),
        r matches Ok(v) ==> assoc_map(live_pairs(v@)) == match keys {
            Some(k) => restrict_keys(store@.live, split_commas(k@).to_set()),
            None => match prefix {
                Some(p) => under_prefix(store@.live, settings_ns() + p@),
                None => under_prefix(store@.live, settings_ns()),
            },
        },
{
    match keys {
        Some(k) => {
            let list = match comma_separated("keys", k) {
                Ok(list) => list,
                Err(e) => {
                    proof {
                        reveal_strlit("keys");
                        assert("keys"@ =~= keys_word());
                    }
                    return Err(e);
                },
            };
            Ok(live_values(store, &list))
        },
        None => match prefix {
            Some(p) => {
                if p.unicode_len() == 0 {
                    proof {
                        reveal_strlit("prefix");
                    }
                    let input = "prefix".to_owned();
                    assert(input@ =~= prefix_word());
                    return Err(Error::EmptyInput { input });
                }
                let full = settings_namespace().concat(p);
                Ok(store.get_prefix(&full, &Committed::Live))
            },
            None => Ok(store.get_prefix(&settings_namespace(), &Committed::Live)),
        },
    }
}

/// Merges `settings` into the named transaction, `default` where none is named.
pub fn patch_settings(store: &mut DataStore, settings: &Vec<Setting>, tx: Option<&str>) -> (r:
    Result<(), Error>)
    requires
        old(store).wf(),
    ensures
        final(store).wf(),
        r is Ok <==> all_known(old(store)@.schema, settings@),
        r matches Err(e) ==> e is NewKey && kind_of(e) == ErrorKind::InvalidInput && final(store)@
            == old(store)@,
        r is Ok ==> final(store)@ == old(store)@.write(tx_of(tx), writes_of(settings@)),
{
    let name = transaction_name(tx).to_owned();
    store.set_settings(settings, &name)
}

/// The names of the transactions that hold pending writes.
pub fn get_transaction_list(store: &DataStore) -> (r: Vec<String>)
    requires
        store.wf(),
    ensures
        strs(r@).no_duplicates(),
        strs(r@).to_set() == transactions(store@.pending),
{
    store.list_transactions()
}

/// The pending settings of the named transaction, `default` where none is named.
pub fn get_transaction(store: &DataStore, tx: Option<&str>) -> (r: Vec<Setting>)
    requires
        store.wf(),
    ensures
        keys_unique(live_pairs(r@)),
        assoc_map(live_pairs(r@)) == under_prefix(tx_pending(store@.pending, tx_of(tx)), settings_ns()),
{
    let name = transaction_name(tx).to_owned();
    store.get_prefix(&settings_namespace(), &Committed::Pending { tx: name })
}

/// Discards the named transaction and returns the keys it held.
pub fn delete_transaction(store: &mut DataStore, tx: Option<&str>) -> (r: Vec<String>)
    requires
        old(store).wf(),
    ensures
        final(store).wf(),
        final(store)@ == old(store)@.delete(tx_of(tx)),
        strs(r@).no_duplicates(),
        strs(r@).to_set() == tx_pending(old(store)@.pending, tx_of(tx)).dom(),
{
    let name = transaction_name(tx).to_owned();
    store.delete_transaction(&name)
}

/// Commits the named transaction and returns the keys whose Live value
/// changed. A transaction with nothing pending is refused with
/// `CommitWithNoPending`, which is a conflict.
pub fn commit_transaction(store: &mut DataStore, tx: Option<&str>) -> (r: Result<Vec<String>, Error>)
    requires
        old(store).wf(),
    ensures
        final(store).wf(),
        r is Err <==> !transactions(old(store)@.pending).contains(tx_of(tx)),
        r matches Err(e) ==> e is CommitWithNoPending && kind_of(e) == ErrorKind::Conflict
            && final(store)@ == old(store)@,
        r matches Ok(keys) ==> final(store)@ == old(store)@.commit(tx_of(tx)) && strs(
            keys@,
        ).no_duplicates() && strs(keys@).to_set() == changed_keys(
            old(store)@.live,
            tx_pending(old(store)@.pending, tx_of(tx)),
        ),
{
    let name = transaction_name(tx).to_owned();
    store.commit_transaction(&name)
}

/// Resolves the services an applier run must refresh: those of the
/// comma-separated `keys`, or those of every Live key where none are given.
pub fn apply_changes(store: &DataStore, keys: Option<&str>) -> (r: Result<Vec<String>, Error>)
    requires
        store.wf(),
    ensures
        keys is None ==> r is Ok,
        keys is None ==> (r matches Ok(s) ==> strs(s@).to_set() == services_of(
            store@.metadata,
            store@.live.dom(),
        )),
        keys matches Some(k) ==> (r is Err <==> k@.len() == 0 || some_unresolvable(
            store@.metadata,
            split_commas(k@),
        )),
        keys matches Some(k) ==> (r matches Ok(s) ==> strs(s@).to_set() == services_of(
            store@.metadata,
            split_commas(k@).to_set(),
        )),
        r matches Ok(s) ==> strs(s@).no_duplicates(),
        r matches Err(e) ==> kind_of(e) == ErrorKind::InvalidInput || kind_of(e) == ErrorKind::NotFound,
        r matches Err(e) ==> (keys.unwrap()@.len() == 0 ==> e is EmptyInput && input_named(
            e,
            keys_word(),
        )) && (keys.unwrap()@.len() > 0 ==> e is ListedKeyNotPresent),
{
    match keys {
        Some(k) => {
            let list = match comma_separated("keys", k) {
                Ok(list) => list,
                Err(e) => {
                    proof {
                        reveal_strlit("keys");
                        assert("keys"@ =~= keys_word());
                    }
                    return Err(e);
                },
            };
            let r = resolve_services(store, Some(&list));
            proof {
                let m = store@.metadata;
                let sp = split_commas(k@);
                let ls = strs(list@);
                if some_unresolvable(m, sp) {
                    let i = choose|i: int| 0 <= i < sp.len() && !resolvable(m, #[trigger] sp[i]);
                    assert(sp.to_set().contains(sp[i]));
                    assert(ls.to_set().contains(sp[i]));
                    let j = choose|j: int| 0 <= j < ls.len() && ls[j] == sp[i];
                    assert(some_unresolvable(m, ls));
                }
                if some_unresolvable(m, ls) {
                    let i = choose|i: int| 0 <= i < ls.len() && !resolvable(m, #[trigger] ls[i]);
                    assert(ls.to_set().contains(ls[i]));
                    assert(sp.to_set().contains(ls[i]));
                    let j = choose|j: int| 0 <= j < sp.len() && sp[j] == ls[i];
                    assert(some_unresolvable(m, sp));
                }
            }
            r
        },
        None => resolve_services(store, None),
    }
}

/// What a commit followed by an apply produced.
#[derive(Debug)]
pub struct CommitApplied {
    /// The keys whose Live value changed.
    pub changed: Vec<String>,
    /// The services that the applier run must refresh.
    pub services: Vec<String>,
}

/// Commits the named transaction, then resolves the services of the keys it
/// changed. Nothing is resolved when the commit is refused.
pub fn commit_transaction_and_apply(store: &mut DataStore, tx: Option<&str>) -> (r: Result<
    CommitApplied,
    Error,
>)
    requires
        old(store).wf(),
    ensures
        final(store).wf(),
        !transactions(old(store)@.pending).contains(tx_of(tx)) ==> r == Err::<CommitApplied, Error>(
            Error::CommitWithNoPending,
        ) && final(store)@ == old(store)@,
        transactions(old(store)@.pending).contains(tx_of(tx)) ==> final(store)@ == old(store)@.commit(
            tx_of(tx),
        ),
        r matches Ok(c) ==> strs(c.changed@).to_set() == changed_keys(
            old(store)@.live,
            tx_pending(old(store)@.pending, tx_of(tx)),
        ) && strs(c.services@).no_duplicates() && strs(c.services@).to_set() == services_of(
            final(store)@.metadata,
            strs(c.changed@).to_set(),
        ),
        transactions(old(store)@.pending).contains(tx_of(tx)) ==> (r is Err <==> exists|k: Seq<char>|
            changed_keys(old(store)@.live, tx_pending(old(store)@.pending, tx_of(tx))).contains(k)
                && !resolvable(old(store)@.metadata, k)),
        r matches Err(e) ==> e is CommitWithNoPending || e is ListedKeyNotPresent,
{
    let changed = commit_transaction(store, tx)?;
    let r = resolve_services(store, Some(&changed));
    proof {
        let ch = strs(changed@);
        let m = store@.metadata;
        if some_unresolvable(m, ch) {
            let i = choose|i: int| 0 <= i < ch.len() && !resolvable(m, #[trigger] ch[i]);
            assert(ch.to_set().contains(ch[i]));
        }
        if exists|k: Seq<char>| ch.to_set().contains(k) && !resolvable(m, k) {
            let k = choose|k: Seq<char>| ch.to_set().contains(k) && !resolvable(m, k);
            let i = choose|i: int| 0 <= i < ch.len() && ch[i] == k;
            assert(some_unresolvable(m, ch));
        }
    }
    let services = r?;
    Ok(CommitApplied { changed, services })
}

/// The (key, value) annotations of kind `kind` on the keys in `keys`.
fn metadata_for_keys(store: &DataStore, kind: &String, keys: &Vec<String>) -> (r: Vec<Setting>)
    ensures
        live_pairs(r@).to_set() == meta_pairs(store@.metadata, kind@, strs(keys@).to_set()),
{
    let mut r: Vec<Setting> = Vec::new();
    let mut i: usize = 0;
    proof {
        assert(live_pairs(r@).to_set() =~= meta_pairs(store@.metadata, kind@, strs(keys@).take(0).to_set()));
    }
    while i < keys.len()
        invariant
            i <= keys@.len(),
            live_pairs(r@).to_set() == meta_pairs(store@.metadata, kind@, strs(keys@).take(i as int).to_set()),
        decreases keys@.len() - i,
    {
        let k = &keys[i];
        let vals = store.get_metadata(k, kind);
        let ghost prev = strs(keys@).take(i as int).to_set();
        let ghost base = live_pairs(r@).to_set();
        let mut j: usize = 0;
        while j < vals.len()
            invariant
                i < keys@.len(),
                k == keys@[i as int],
                j <= vals@.len(),
                base == meta_pairs(store@.metadata, kind@, prev),
                live_pairs(r@).to_set() == base + Set::new(
                    |p: (Seq<char>, Seq<char>)| p.0 == k@ && strs(vals@).take(j as int).contains(p.1),
                ),
            decreases vals@.len() - j,
        {
            let ghost before = live_pairs(r@);
            r.push(Setting { key: k.clone(), value: vals[j].clone() });
            proof {
                assert(live_pairs(r@) =~= before.push((k@, vals@[j as int]@)));
                before.lemma_push_to_set_commute((k@, vals@[j as int]@));
                assert(strs(vals@).take(j as int + 1) =~= strs(vals@).take(j as int).push(vals@[j as int]@));
                strs(vals@).take(j as int).lemma_push_to_set_commute(vals@[j as int]@);
                assert(live_pairs(r@).to_set() =~= base + Set::new(
                    |p: (Seq<char>, Seq<char>)| p.0 == k@ && strs(vals@).take(j as int + 1).contains(p.1),
                )) by {
                    assert forall|p: (Seq<char>, Seq<char>)| p.0 == k@ && strs(vals@).take(j as int + 1).contains(p.1)
                        && !(p.0 == k@ && strs(vals@).take(j as int).contains(p.1)) implies p == (k@, vals@[j as int]@) by {
                        assert(strs(vals@).take(j as int + 1).to_set().contains(p.1));
                    }
                    assert forall|p: (Seq<char>, Seq<char>)| p.0 == k@ && strs(vals@).take(j as int).contains(p.1)
                        implies strs(vals@).take(j as int + 1).contains(p.1) by {
                        assert(strs(vals@).take(j as int).to_set().contains(p.1));
                        assert(strs(vals@).take(j as int + 1).to_set().contains(p.1));
                    }
                    assert(strs(vals@).take(j as int + 1).to_set().contains(vals@[j as int]@));
                }
            }
            j = j + 1;
        }
        proof {
            let kk = keys@[i as int]@;
            assert(strs(keys@).take(i as int + 1) =~= strs(keys@).take(i as int).push(kk));
            strs(keys@).take(i as int).lemma_push_to_set_commute(kk);
            assert(strs(vals@).take(vals@.len() as int) =~= strs(vals@));
            assert(live_pairs(r@).to_set() =~= meta_pairs(store@.metadata, kind@, prev.insert(kk))) by {
                assert forall|p: (Seq<char>, Seq<char>)| p.0 == kk && strs(vals@).contains(p.1)
                    <==> p.0 == kk && store@.metadata.contains((kk, kind@, p.1)) by {
                    if p.0 == kk {
                        assert(strs(vals@).to_set().contains(p.1) == meta_values(store@.metadata, kk, kind@).contains(p.1));
                    }
                }
            }
        }
        i = i + 1;
    }
    assert(strs(keys@).take(keys@.len() as int) =~= strs(keys@));
    r
}

fn metadata_query(store: &DataStore, kind: &String, keys: Option<&str>) -> (r: Result<Vec<Setting>, Error>)
    ensures
        r is Err <==> keys is None || keys.unwrap()@.len() == 0,
        r matches Err(e) ==> (keys is None ==> e is MissingInput) && (keys is Some ==> e is EmptyInput)
            && input_named(e, keys_word()),
        r matches Ok(v) ==> live_pairs(v@).to_set() == meta_pairs(
            store@.metadata,
            kind@,
            split_commas(keys.unwrap()@).to_set(),
        ),
{
    match keys {
        Some(k) => {
            let list = match comma_separated("keys", k) {
                Ok(list) => list,
                Err(e) => {
                    proof {
                        reveal_strlit("keys");
                        assert("keys"@ =~= keys_word());
                    }
                    return Err(e);
                },
            };
            Ok(metadata_for_keys(store, kind, &list))
        },
        None => {
            proof {
                reveal_strlit("keys");
            }
            let input = "keys".to_owned();
            assert(input@ =~= keys_word());
            Err(Error::MissingInput { input })
        },
    }
}

/// The affected-services metadata of the comma-separated `keys`; the
/// parameter is required and may not be empty.
pub fn get_affected_services(store: &DataStore, keys: Option<&str>) -> (r: Result<Vec<Setting>, Error>)
    ensures
        r is Err <==> keys is None || keys.unwrap()@.len() == 0,
        r matches Err(e) ==> (keys is None ==> e is MissingInput) && (keys is Some ==> e is EmptyInput)
            && input_named(e, keys_word()),
        r matches Ok(v) ==> live_pairs(v@).to_set() == meta_pairs(
            store@.metadata,
            crate::apply::affected_kind(),
            split_commas(keys.unwrap()@).to_set(),
        ),
{
    metadata_query(store, &crate::apply::affected_services_kind(), keys)
}

/// The metadata kind that names a key's template.
pub open spec fn template_kind() -> Seq<char> {
    seq!['t', 'e', 'm', 'p', 'l', 'a', 't', 'e']
}

/// The metadata kind that names a key's setting generator.
pub open spec fn generator_kind() -> Seq<char> {
    seq!['s', 'e', 't', 't', 'i', 'n', 'g', '-', 'g', 'e', 'n', 'e', 'r', 'a', 't', 'o', 'r']
}

/// The template metadata of the comma-separated `keys`; the parameter is
/// required and may not be empty.
pub fn get_templates(store: &DataStore, keys: Option<&str>) -> (r: Result<Vec<Setting>, Error>)
    ensures
        r is Err <==> keys is None || keys.unwrap()@.len() == 0,
        r matches Err(e) ==> (keys is None ==> e is MissingInput) && (keys is Some ==> e is EmptyInput)
            && input_named(e, keys_word()),
        r matches Ok(v) ==> live_pairs(v@).to_set() == meta_pairs(
            store@.metadata,
            template_kind(),
            split_commas(keys.unwrap()@).to_set(),
        ),
{
    let s = "template";
    proof {
        reveal_strlit("template");
    }
    let kind = s.to_owned();
    assert(kind@ =~= template_kind());
    metadata_query(store, &kind, keys)
}

/// Every key that has setting-generator metadata, with its generator.
pub fn get_setting_generators(store: &DataStore) -> (r: Vec<Setting>)
    ensures
        live_pairs(r@).to_set() == Set::new(
            |p: (Seq<char>, Seq<char>)| store@.metadata.contains((p.0, generator_kind(), p.1)),
        ),
{
    let s = "setting-generator";
    proof {
        reveal_strlit("setting-generator");
    }
    let kind = s.to_owned();
    assert(kind@ =~= generator_kind());
    store.metadata_of_kind(&kind)
}

/// The Live entries whose key lies under `ns` followed by one of `names` and a dot.
pub open spec fn named_entries(
    live: Map<Seq<char>, Seq<char>>,
    ns: Seq<char>,
    names: Set<Seq<char>>,
) -> Set<(Seq<char>, Seq<char>)> {
    Set::new(
        |p: (Seq<char>, Seq<char>)|
            live.contains_key(p.0) && live[p.0] == p.1 && exists|n: Seq<char>|
                names.contains(n) && #[trigger] starts_with(p.0, ns + n + seq!['.']),
    )
}

/// The pairs of a map.
pub open spec fn pairs_of(m: Map<Seq<char>, Seq<char>>) -> Set<(Seq<char>, Seq<char>)> {
    Set::new(|p: (Seq<char>, Seq<char>)| m.contains_key(p.0) && m[p.0] == p.1)
}

proof fn lemma_pairs_of_assoc(s: Seq<(Seq<char>, Seq<char>)>)
    requires
        keys_unique(s),
    ensures
        s.to_set() == pairs_of(assoc_map(s)),
{
    assert forall|p: (Seq<char>, Seq<char>)| s.to_set().contains(p) <==> pairs_of(assoc_map(s)).contains(
        p,
    ) by {
        if s.to_set().contains(p) {
            let i = choose|i: int| 0 <= i < s.len() && s[i] == p;
            crate::assoc::lemma_index(s, i);
        }
        if pairs_of(assoc_map(s)).contains(p) {
            let i = choose|i: int| 0 <= i < s.len() && s[i].0 == p.0;
            crate::assoc::lemma_index(s, i);
            assert(s[i] == p);
            assert(s.contains(p));
        }
    }
    assert(s.to_set() =~= pairs_of(assoc_map(s)));
}

/// The Live entries under `ns` for each of `names`.
fn entries_for_names(store: &DataStore, ns: &String, names: &Vec<String>) -> (r: Vec<Setting>)
    requires
        store.wf(),
    ensures
        live_pairs(r@).to_set() == named_entries(store@.live, ns@, strs(names@).to_set()),
{
    let mut r: Vec<Setting> = Vec::new();
    let mut i: usize = 0;
    proof {
        assert(live_pairs(r@).to_set() =~= named_entries(store@.live, ns@, strs(names@).take(0).to_set()));
    }
    while i < names.len()
        invariant
            store.wf(),
            i <= names@.len(),
            live_pairs(r@).to_set() == named_entries(store@.live, ns@, strs(names@).take(i as int).to_set()),
        decreases names@.len() - i,
    {
        let n = &names[i];
        let prefix = ns.clone().concat(n.as_str()).concat(".");
        proof {
            reveal_strlit(".");
            assert(prefix@ =~= ns@ + n@ + seq!['.']);
        }
        let found = store.get_prefix(&prefix, &Committed::Live);
        let ghost base = live_pairs(r@);
        let ghost prev = strs(names@).take(i as int).to_set();
        let mut j: usize = 0;
        proof {
            lemma_pairs_of_assoc(live_pairs(found@));
            assert(live_pairs(found@).take(0).to_set() =~= Set::empty());
            assert(base.to_set() =~= base.to_set() + live_pairs(found@).take(0).to_set());
        }
        while j < found.len()
            invariant
                j <= found@.len(),
                live_pairs(r@).to_set() == base.to_set() + live_pairs(found@).take(j as int).to_set(),
            decreases found@.len() - j,
        {
            let ghost before = live_pairs(r@);
            let e = &found[j];
            r.push(Setting { key: e.key.clone(), value: e.value.clone() });
            proof {
                assert(live_pairs(r@) =~= before.push((e.key@, e.value@)));
                before.lemma_push_to_set_commute((e.key@, e.value@));
                assert(live_pairs(found@).take(j as int + 1) =~= live_pairs(found@).take(j as int).push(
                    (e.key@, e.value@),
                ));
                live_pairs(found@).take(j as int).lemma_push_to_set_commute((e.key@, e.value@));
                assert(live_pairs(r@).to_set() =~= base.to_set() + live_pairs(found@).take(
                    j as int + 1,
                ).to_set());
            }
            j = j + 1;
        }
        proof {
            let nn = names@[i as int]@;
            assert(live_pairs(found@).take(found@.len() as int) =~= live_pairs(found@));
            assert(strs(names@).take(i as int + 1) =~= strs(names@).take(i as int).push(nn));
            strs(names@).take(i as int).lemma_push_to_set_commute(nn);
            let live = store@.live;
            assert(pairs_of(under_prefix(live, ns@ + nn + seq!['.'])) =~= Set::new(
                |p: (Seq<char>, Seq<char>)|
                    live.contains_key(p.0) && live[p.0] == p.1 && starts_with(p.0, ns@ + nn + seq!['.']),
            ));
            assert(live_pairs(r@).to_set() =~= named_entries(live, ns@, prev.insert(nn))) by {
                assert forall|p: (Seq<char>, Seq<char>)|
                    named_entries(live, ns@, prev.insert(nn)).contains(p) implies live_pairs(
                    r@,
                ).to_set().contains(p) by {
                    let w = choose|w: Seq<char>|
                        prev.insert(nn).contains(w) && #[trigger] starts_with(p.0, ns@ + w + seq!['.']);
                    if w != nn {
                        assert(named_entries(live, ns@, prev).contains(p));
                    }
                }
                assert forall|p: (Seq<char>, Seq<char>)|
                    live_pairs(r@).to_set().contains(p) implies named_entries(
                    live,
                    ns@,
                    prev.insert(nn),
                ).contains(p) by {
                    if base.to_set().contains(p) {
                        let w = choose|w: Seq<char>|
                            prev.contains(w) && #[trigger] starts_with(p.0, ns@ + w + seq!['.']);
                        assert(prev.insert(nn).contains(w));
                    } else {
                        assert(prev.insert(nn).contains(nn));
                    }
                }
            }
        }
        i = i + 1;
    }
    assert(strs(names@).take(names@.len() as int) =~= strs(names@));
    r
}

/// The Live entries of the namespace `ns`, or, where `names` (comma-separated)
/// is given, those of the named members of it. An empty `names` is refused.
fn get_named(store: &DataStore, ns: &String, names: Option<&str>) -> (r: Result<Vec<Setting>, Error>)
    requires
        store.wf(),
    ensures
        r is Err <==> names is Some && names.unwrap()@.len() == 0,
        r matches Err(e) ==> e is EmptyInput && input_named(e, names_word()),
        r matches Ok(v) ==> live_pairs(v@).to_set() == match names {
            Some(n) => named_entries(store@.live, ns@, split_commas(n@).to_set()),
            None => pairs_of(under_prefix(store@.live, ns@)),
        },
{
    match names {
        Some(n) => {
            let list = match comma_separated("names", n) {
                Ok(list) => list,
                Err(e) => {
                    proof {
                        reveal_strlit("names");
                        assert("names"@ =~= names_word());
                    }
                    return Err(e);
                },
            };
            Ok(entries_for_names(store, ns, &list))
        },
        None => {
            let r = store.get_prefix(ns, &Committed::Live);
            proof {
                lemma_pairs_of_assoc(live_pairs(r@));
            }
            Ok(r)
        },
    }
}

/// The namespace that service descriptions live in.
pub open spec fn services_ns() -> Seq<char> {
    seq!['s', 'e', 'r', 'v', 'i', 'c', 'e', 's', '.']
}

/// The namespace that configuration-file descriptions live in.
pub open spec fn files_ns() -> Seq<char> {
    seq![
        'c', 'o', 'n', 'f', 'i', 'g', 'u', 'r', 'a', 't', 'i', 'o', 'n', '-', 'f', 'i', 'l', 'e', 's', '.',
    ]
}

fn services_namespace() -> (r: String)
    ensures
        r@ == services_ns(),
{
    let s = "services.";
    proof {
        reveal_strlit("services.");
    }
    let r = s.to_owned();
    assert(r@ =~= services_ns());
    r
}

fn files_namespace() -> (r: String)
    ensures
        r@ == files_ns(),
{
    let s = "configuration-files.";
    proof {
        reveal_strlit("configuration-files.");
    }
    let r = s.to_owned();
    assert(r@ =~= files_ns());
    r
}

/// The Live service descriptions, all of them or those of the
/// comma-separated `names`. An empty `names` is refused with `EmptyInput`.
pub fn get_services(store: &DataStore, names: Option<&str>) -> (r: Result<Vec<Setting>, Error>)
    requires
        store.wf(),
    ensures
        r is Err <==> names is Some && names.unwrap()@.len() == 0,
        r matches Err(e) ==> e is EmptyInput && input_named(e, names_word()),
        r matches Ok(v) ==> live_pairs(v@).to_set() == match names {
            Some(n) => named_entries(store@.live, services_ns(), split_commas(n@).to_set()),
            None => pairs_of(under_prefix(store@.live, services_ns())),
        },
{
    get_named(store, &services_namespace(), names)
}

/// The Live configuration-file descriptions, all of them or those of the
/// comma-separated `names`. An empty `names` is refused with `EmptyInput`.
pub fn get_configuration_files(store: &DataStore, names: Option<&str>) -> (r: Result<
    Vec<Setting>,
    Error,
>)
    requires
        store.wf(),
    ensures
        r is Err <==> names is Some && names.unwrap()@.len() == 0,
        r matches Err(e) ==> e is EmptyInput && input_named(e, names_word()),
        r matches Ok(v) ==> live_pairs(v@).to_set() == match names {
            Some(n) => named_entries(store@.live, files_ns(), split_commas(n@).to_set()),
            None => pairs_of(under_prefix(store@.live, files_ns())),
        },
{
    get_named(store, &files_namespace(), names)
}

/// The whole Live model, namespace by namespace.
#[derive(Debug)]
pub struct Model {
    pub settings: Vec<Setting>,
    pub services: Vec<Setting>,
    pub configuration_files: Vec<Setting>,
}

/// The Live settings, services and configuration files.
pub fn get_model(store: &DataStore) -> (r: Model)
    requires
        store.wf(),
    ensures
        live_pairs(r.settings@).to_set() == pairs_of(under_prefix(store@.live, settings_ns())),
        live_pairs(r.services@).to_set() == pairs_of(under_prefix(store@.live, services_ns())),
        live_pairs(r.configuration_files@).to_set() == pairs_of(
            under_prefix(store@.live, files_ns()),
        ),
{
    let settings = store.get_prefix(&settings_namespace(), &Committed::Live);
    let services = store.get_prefix(&services_namespace(), &Committed::Live);
    let configuration_files = store.get_prefix(&files_namespace(), &Committed::Live);
    proof {
        lemma_pairs_of_assoc(live_pairs(settings@));
        lemma_pairs_of_assoc(live_pairs(services@));
        lemma_pairs_of_assoc(live_pairs(configuration_files@));
    }
    Model { settings, services, configuration_files }
}

/// The outcome of the reboot command: success, or `Reboot` with the exit
/// code, the signal where the command was killed, and 1 where neither is known.
pub fn reboot_result(success: bool, code: Option<i32>, signal: Option<i32>, stderr: String) -> (r:
    Result<(), Error>)
    ensures
        success ==> r is Ok,
        !success ==> r == Err::<(), Error>(
            Error::Reboot {
                exit_code: match code {
                    Some(c) => c,
                    None => match signal {
                        Some(s) => s,
                        None => 1,
                    },
                },
                stderr,
            },
        ),
{
    if success {
        return Ok(());
    }
    let exit_code = match code {
        Some(c) => c,
        None => match signal {
            Some(s) => s,
            None => 1,
        },
    };
    Err(Error::Reboot { exit_code, stderr })
}

/// The store after each document of `docs` in turn is written into `t` and,
/// where `t` then holds writes, committed.
pub open spec fn boot_model(m: StoreModel, t: Seq<char>, docs: Seq<Vec<Setting>>) -> StoreModel
    decreases docs.len(),
{
    if docs.len() == 0 {
        m
    } else {
        let w = boot_model(m, t, docs.drop_last()).write(t, writes_of(docs.last()@));
        if transactions(w.pending).contains(t) {
            w.commit(t)
        } else {
            w
        }
    }
}

/// Every document of `docs` names only keys of the schema.
pub open spec fn docs_known(schema: Set<Seq<char>>, docs: Seq<Vec<Setting>>) -> bool {
    forall|i: int| 0 <= i < docs.len() ==> all_known(schema, #[trigger] docs[i]@)
}

/// Feeds the settings documents of a boot-time platform provider, in order,
/// through a write into transaction `tx` and a commit. A document that the
/// schema refuses stops the load with its `NewKey` error; the documents
/// before it stay committed.
pub fn load_platform_settings(store: &mut DataStore, docs: &Vec<Vec<Setting>>, tx: &str) -> (r:
    Result<(), Error>)
    requires
        old(store).wf(),
    ensures
        final(store).wf(),
        r is Ok <==> docs_known(old(store)@.schema, docs@),
        r matches Err(e) ==> e is NewKey,
        r is Ok ==> final(store)@ == boot_model(old(store)@, tx@, docs@),
{
    let mut i: usize = 0;
    proof {
        assert(docs@.take(0) =~= Seq::<Vec<Setting>>::empty());
    }
    while i < docs.len()
        invariant
            store.wf(),
            i <= docs@.len(),
            store@.schema == old(store)@.schema,
            store@ == boot_model(old(store)@, tx@, docs@.take(i as int)),
            docs_known(old(store)@.schema, docs@.take(i as int)),
        decreases docs@.len() - i,
    {
        proof {
            assert(docs@.take(i as int + 1).drop_last() =~= docs@.take(i as int));
            assert(docs@.take(i as int + 1).last() == docs@[i as int]);
        }
        let written = patch_settings(store, &docs[i], Some(tx));
        match written {
            Ok(()) => {},
            Err(e) => {
                proof {
                    assert(!docs_known(old(store)@.schema, docs@)) by {
                        assert(!all_known(old(store)@.schema, docs@[i as int]@));
                    }
                }
                return Err(e);
            },
        }
        // Refused only where the document wrote nothing, which leaves nothing to commit.
        let _ = commit_transaction(store, Some(tx));
        proof {
            assert(docs_known(old(store)@.schema, docs@.take(i as int + 1))) by {
                assert forall|j: int| 0 <= j < i + 1 implies all_known(
                    old(store)@.schema,
                    #[trigger] docs@.take(i as int + 1)[j]@,
                ) by {
                    if j < i {
                        assert(docs@.take(i as int + 1)[j] == docs@.take(i as int)[j]);
                    }
                }
            }
        }
        i = i + 1;
    }
    proof {
        assert(docs@.take(docs@.len() as int) =~= docs@);
    }
    Ok(())
}

} // verus!
