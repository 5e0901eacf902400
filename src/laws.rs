//! Laws of the transaction model that relate several operations.
use vstd::prelude::*;
use crate::store::{drop_tx, transactions, tx_pending, StoreModel};

verus! {

/// Committing `t` leaves in Live exactly the writes of `t` merged over the
/// earlier Live values, and `t` is no longer among the transactions.
pub proof fn lemma_commit_merges(m: StoreModel, t: Seq<char>)
    ensures
        forall|k: Seq<char>| #[trigger]
            m.commit(t).live.contains_key(k) <==> m.live.contains_key(k) || tx_pending(
                m.pending,
                t,
            ).contains_key(k),
        forall|k: Seq<char>| #[trigger]
            tx_pending(m.pending, t).contains_key(k) ==> m.commit(t).live[k] == tx_pending(
                m.pending,
                t,
            )[k],
        forall|k: Seq<char>|
            m.live.contains_key(k) && !tx_pending(m.pending, t).contains_key(k) ==> #[trigger] m.commit(
                t,
            ).live[k] == m.live[k],
        !transactions(m.commit(t).pending).contains(t),
{
    assert forall|k: Seq<char>| !m.commit(t).pending.contains_key((t, k)) by {}
}

/// Deleting a transaction twice is deleting it once: the second delete finds
/// no key to remove.
pub proof fn lemma_delete_idempotent(m: StoreModel, t: Seq<char>)
    ensures
        m.delete(t).delete(t) == m.delete(t),
        tx_pending(m.delete(t).pending, t).dom() == Set::<Seq<char>>::empty(),
        m.delete(t).live == m.live,
{
    assert(drop_tx(drop_tx(m.pending, t), t) =~= drop_tx(m.pending, t));
    assert(tx_pending(m.delete(t).pending, t).dom() =~= Set::<Seq<char>>::empty());
}

/// Writes to two different transactions do not interfere: their order does
/// not matter, each transaction holds exactly its own writes merged over what
/// it held, and committing one leaves the other's writes pending.
pub proof fn lemma_distinct_transactions_independent(
    m: StoreModel,
    t1: Seq<char>,
    w1: Map<Seq<char>, Seq<char>>,
    t2: Seq<char>,
    w2: Map<Seq<char>, Seq<char>>,
)
    requires
        t1 != t2,
    ensures
        m.write(t1, w1).write(t2, w2) == m.write(t2, w2).write(t1, w1),
        tx_pending(m.write(t1, w1).write(t2, w2).pending, t1) == tx_pending(
            m.pending,
            t1,
        ).union_prefer_right(w1),
        tx_pending(m.write(t1, w1).write(t2, w2).pending, t2) == tx_pending(
            m.pending,
            t2,
        ).union_prefer_right(w2),
        tx_pending(m.write(t1, w1).write(t2, w2).commit(t1).pending, t2) == tx_pending(
            m.pending,
            t2,
        ).union_prefer_right(w2),
        m.write(t1, w1).write(t2, w2).schema == m.schema,
{
    let a = m.write(t1, w1).write(t2, w2);
    let b = m.write(t2, w2).write(t1, w1);
    assert(a.pending =~= b.pending);
    assert(tx_pending(a.pending, t1) =~= tx_pending(m.pending, t1).union_prefer_right(w1));
    assert(tx_pending(a.pending, t2) =~= tx_pending(m.pending, t2).union_prefer_right(w2));
    assert(tx_pending(a.commit(t1).pending, t2) =~= tx_pending(a.pending, t2));
}

/// A write into `t` changes nothing outside `t`.
pub proof fn lemma_write_confined(m: StoreModel, t: Seq<char>, w: Map<Seq<char>, Seq<char>>, u: Seq<char>)
    requires
        u != t,
    ensures
        tx_pending(m.write(t, w).pending, u) == tx_pending(m.pending, u),
        m.write(t, w).live == m.live,
        m.write(t, w).metadata == m.metadata,
{
    assert(tx_pending(m.write(t, w).pending, u) =~= tx_pending(m.pending, u));
}

} // verus!
