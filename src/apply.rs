//! Resolution of changed keys into the services that an applier must
//! refresh. The applier itself is an outside process: what is resolved here
//! is the single set of services that one applier run handles.
use vstd::prelude::*;
use crate::assoc::lemma_push_fresh;
use crate::error::Error;
use crate::store::{contains_str, meta_values, strs, DataStore};

verus! {

/// The metadata kind that names the services a key affects.
pub open spec fn affected_kind() -> Seq<char> {
    seq!['a', 'f', 'f', 'e', 'c', 't', 'e', 'd', '-', 's', 'e', 'r', 'v', 'i', 'c', 'e', 's']
}

/// Some service is named in the affected-services metadata of `k`.
pub open spec fn resolvable(metadata: Set<(Seq<char>, Seq<char>, Seq<char>)>, k: Seq<char>) -> bool {
    exists|s: Seq<char>| metadata.contains((k, affected_kind(), s))
}

/// The services that the affected-services metadata of the keys in `keys` names.
pub open spec fn services_of(
    metadata: Set<(Seq<char>, Seq<char>, Seq<char>)>,
    keys: Set<Seq<char>>,
) -> Set<Seq<char>> {
    Set::new(|s: Seq<char>| exists|k: Seq<char>| keys.contains(k) && metadata.contains((k, affected_kind(), s)))
}

/// The key at `i` is the first of `keys` that no affected-services metadata resolves.
pub open spec fn first_unresolvable(
    metadata: Set<(Seq<char>, Seq<char>, Seq<char>)>,
    keys: Seq<Seq<char>>,
    i: int,
) -> bool {
    &&& 0 <= i < keys.len()
    &&& !resolvable(metadata, keys[i])
    &&& forall|j: int| 0 <= j < i ==> resolvable(metadata, #[trigger] keys[j])
}

/// The name of the affected-services metadata kind.
pub fn affected_services_kind() -> (r: String)
    ensures
        r@ == affected_kind(),
{
    let s = "affected-services";
    proof {
        reveal_strlit("affected-services");
    }
    let r = s.to_owned();
    assert(r@ =~= affected_kind());
    r
}

/// Adds to `out` each element of `add` that it does not hold yet.
fn extend_unique(out: &mut Vec<String>, add: &Vec<String>)
    requires
        strs(old(out)@).no_duplicates(),
    ensures
        strs(final(out)@).no_duplicates(),
        strs(final(out)@).to_set() == strs(old(out)@).to_set() + strs(add@).to_set(),
{
    let mut i: usize = 0;
    proof {
        assert(strs(add@).take(0).to_set() =~= Set::empty());
        assert(strs(out@).to_set() =~= strs(old(out)@).to_set() + strs(add@).take(0).to_set());
    }
    while i < add.len()
        invariant
            i <= add@.len(),
            strs(out@).no_duplicates(),
            strs(out@).to_set() == strs(old(out)@).to_set() + strs(add@).take(i as int).to_set(),
        decreases add@.len() - i,
    {
        let ghost before = strs(out@);
        assert(strs(add@).take(i as int + 1) =~= strs(add@).take(i as int).push(add@[i as int]@));
        proof {
            strs(add@).take(i as int).lemma_push_to_set_commute(add@[i as int]@);
        }
        if !contains_str(out, &add[i]) {
            out.push(add[i].clone());
            proof {
                assert(strs(out@) =~= before.push(add@[i as int]@));
                lemma_push_fresh(before, add@[i as int]@);
            }
        }
        proof {
            if before.contains(add@[i as int]@) {
                assert(before.to_set().contains(add@[i as int]@));
            }
            assert(strs(out@).to_set() =~= strs(old(out)@).to_set() + strs(add@).take(
                i as int + 1,
            ).to_set());
        }
        i = i + 1;
    }
    assert(strs(add@).take(add@.len() as int) =~= strs(add@));
}

/// The union of the services that the affected-services metadata of `keys` names.
pub fn services_for_keys(store: &DataStore, keys: &Vec<String>) -> (r: Vec<String>)
    ensures
        strs(r@).no_duplicates(),
        strs(r@).to_set() == services_of(store@.metadata, strs(keys@).to_set()),
{
    let kind = affected_services_kind();
    let mut out: Vec<String> = Vec::new();
    let mut i: usize = 0;
    proof {
        assert(services_of(store@.metadata, strs(keys@).take(0).to_set()) =~= Set::empty());
        assert(strs(out@).to_set() =~= Set::empty());
    }
    while i < keys.len()
        invariant
            i <= keys@.len(),
            kind@ == affected_kind(),
            strs(out@).no_duplicates(),
            strs(out@).to_set() == services_of(store@.metadata, strs(keys@).take(i as int).to_set()),
        decreases keys@.len() - i,
    {
        let vals = store.get_metadata(&keys[i], &kind);
        let ghost prev = strs(keys@).take(i as int).to_set();
        extend_unique(&mut out, &vals);
        proof {
            let k = keys@[i as int]@;
            assert(strs(keys@).take(i as int + 1) =~= strs(keys@).take(i as int).push(k));
            strs(keys@).take(i as int).lemma_push_to_set_commute(k);
            let m = store@.metadata;
            assert(services_of(m, prev.insert(k)) =~= services_of(m, prev) + meta_values(
                m,
                k,
                affected_kind(),
            )) by {
                assert forall|s: Seq<char>| #[trigger]
                    services_of(m, prev.insert(k)).contains(s) implies (services_of(
                    m,
                    prev,
                ) + meta_values(m, k, affected_kind())).contains(s) by {
                    let w = choose|w: Seq<char>|
                        prev.insert(k).contains(w) && m.contains((w, affected_kind(), s));
                    if w != k {
                        assert(services_of(m, prev).contains(s));
                    }
                }
                assert forall|s: Seq<char>| #[trigger]
                    meta_values(m, k, affected_kind()).contains(s) implies services_of(
                    m,
                    prev.insert(k),
                ).contains(s) by {
                    assert(prev.insert(k).contains(k));
                }
                assert forall|s: Seq<char>| #[trigger]
                    services_of(m, prev).contains(s) implies services_of(
                    m,
                    prev.insert(k),
                ).contains(s) by {
                    let w = choose|w: Seq<char>| prev.contains(w) && m.contains((w, affected_kind(), s));
                    assert(prev.insert(k).contains(w));
                }
            }
        }
        i = i + 1;
    }
    assert(strs(keys@).take(keys@.len() as int) =~= strs(keys@));
    out
}

/// Resolves the keys whose changes must be applied, `None` standing for every
/// Live key, into the single set of services for one applier run. Each
/// explicitly listed key must carry affected-services metadata; the first
/// that does not is reported as `ListedKeyNotPresent` and nothing is resolved.
pub fn apply_changes(store: &DataStore, keys: Option<&Vec<String>>) -> (r: Result<
    Vec<String>,
    Error,
>)
    requires
        store.wf(),
    ensures
        keys is None ==> r is Ok,
        keys is Some ==> (r is Err <==> some_unresolvable(store@.metadata, strs(keys.unwrap()@))),
        r matches Err(e) ==> (exists|i: int|
            first_unresolvable(store@.metadata, strs(keys.unwrap()@), i) && e == (
            Error::ListedKeyNotPresent { key: keys.unwrap()@[i] })),
        r matches Ok(s) ==> strs(s@).no_duplicates() && strs(s@).to_set() == services_of(
            store@.metadata,
            resolved_keys(store@.live, keys),
        ),
{
    match keys {
        Some(ks) => {
            let kind = affected_services_kind();
            let mut i: usize = 0;
            while i < ks.len()
                invariant
                    keys == Some(ks),
                    i <= ks@.len(),
                    kind@ == affected_kind(),
                    forall|j: int| 0 <= j < i ==> resolvable(store@.metadata, #[trigger] strs(ks@)[j]),
                decreases ks@.len() - i,
            {
                let vals = store.get_metadata(&ks[i], &kind);
                assert(strs(ks@)[i as int] == ks@[i as int]@);
                if vals.len() == 0 {
                    proof {
                        assert forall|s: Seq<char>|
                            !store@.metadata.contains((ks@[i as int]@, affected_kind(), s)) by {
                            if store@.metadata.contains((ks@[i as int]@, affected_kind(), s)) {
                                assert(strs(vals@).to_set().contains(s));
                            }
                        }
                        assert(first_unresolvable(store@.metadata, strs(ks@), i as int));
                    }
                    let key = ks[i].clone();
                    assert(key == ks@[i as int]);
                    assert(keys.unwrap()@ == ks@);
                    assert(first_unresolvable(store@.metadata, strs(keys.unwrap()@), i as int));
                    assert(Error::ListedKeyNotPresent { key } == (Error::ListedKeyNotPresent {
                        key: keys.unwrap()@[i as int],
                    }));
                    return Err(Error::ListedKeyNotPresent { key });
                }
                proof {
                    assert(strs(vals@).contains(strs(vals@)[0]));
                    assert(strs(vals@).to_set().contains(strs(vals@)[0]));
                }
                i = i + 1;
            }
            Ok(services_for_keys(store, ks))
        },
        None => {
            let all = store.live_keys();
            Ok(services_for_keys(store, &all))
        },
    }
}

/// Some key of `keys` has no affected-services metadata.
pub open spec fn some_unresolvable(
    metadata: Set<(Seq<char>, Seq<char>, Seq<char>)>,
    keys: Seq<Seq<char>>,
) -> bool {
    exists|i: int| 0 <= i < keys.len() && !resolvable(metadata, #[trigger] keys[i])
}

/// The keys an apply covers: those listed, or every Live key.
pub open spec fn resolved_keys(live: Map<Seq<char>, Seq<char>>, keys: Option<&Vec<String>>) -> Set<
    Seq<char>,
> {
    match keys {
        Some(ks) => strs(ks@).to_set(),
        None => live.dom(),
    }
}

} // verus!
