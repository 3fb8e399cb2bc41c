//! Laws that relate the cache's operations, stated over the table they leave.
use crate::cache::{index_matches, live, lookup, stored, Entry};
use crate::instant::Instant;
use vstd::prelude::*;

verus! {

/// A value stored without expiration is returned by every later lookup of
/// its key, whenever that lookup happens.
pub proof fn lemma_round_trip<V>(m: Map<Seq<char>, Entry<V>>, k: Seq<char>, v: V, now: u64, later: u64)
    ensures
        lookup(stored(m, k, v, None, now), k, later) == Some(v),
{
}

/// A value stored with expiration `t` is returned by a lookup at any reading
/// from the store on that comes before `t`, and by none at `t` or after,
/// whether or not a sweep has removed the entry.
pub proof fn lemma_expiration<V>(
    m: Map<Seq<char>, Entry<V>>,
    k: Seq<char>,
    v: V,
    t: Instant,
    now: u64,
    later: u64,
)
    requires
        now <= later,
    ensures
        later < t@ ==> lookup(stored(m, k, v, Some(t), now), k, later) == Some(v),
        t@ <= later ==> lookup(stored(m, k, v, Some(t), now), k, later) is None,
        t@ <= later ==> lookup(m.insert(k, Entry { value: v, expires: Some(t) }), k, later) is None,
{
}

/// After a store at `now`, no entry that has expired at `now` is left.
pub proof fn lemma_sweep_complete<V>(
    m: Map<Seq<char>, Entry<V>>,
    k: Seq<char>,
    v: V,
    expires: Option<Instant>,
    now: u64,
)
    ensures
        forall|k2: Seq<char>| #[trigger]
            stored(m, k, v, expires, now).contains_key(k2) ==> live(
                stored(m, k, v, expires, now)[k2],
                now,
            ),
{
}

/// After a store of `k`, the index holds at most one record for `k`: none
/// when the new entry has no expiration, and the new expiration when the
/// entry outlived the sweep.
pub proof fn lemma_replacement_records<V>(
    m: Map<Seq<char>, Entry<V>>,
    k: Seq<char>,
    v: V,
    expires: Option<Instant>,
    now: u64,
    ix: Seq<(u64, Seq<char>)>,
)
    requires
        index_matches(stored(m, k, v, expires, now), ix),
    ensures
        forall|i: int, j: int|
            0 <= i < ix.len() && 0 <= j < ix.len() && ix[i].1 == k && ix[j].1 == k ==> i == j,
        expires is None ==> forall|i: int| 0 <= i < ix.len() ==> ix[i].1 != k,
        expires is Some && expires->0@ > now ==> exists|i: int|
            0 <= i < ix.len() && ix[i] == (expires->0@, k),
{
    let m2 = stored(m, k, v, expires, now);
    if expires is None {
        assert forall|i: int| 0 <= i < ix.len() implies ix[i].1 != k by {
            assert(m2.contains_key(ix[i].1));
        }
    }
    if expires is Some && expires->0@ > now {
        assert(m2.contains_key(k));
        let i = choose|i: int| 0 <= i < ix.len() && ix[i].1 == k;
        assert(m2.contains_key(ix[i].1));
    }
}

/// Deleting an absent key changes nothing, and a second delete of a key
/// changes nothing more than the first.
pub proof fn lemma_delete_idempotent<V>(m: Map<Seq<char>, Entry<V>>, k: Seq<char>)
    ensures
        !m.contains_key(k) ==> m.remove(k) == m,
        m.remove(k).remove(k) == m.remove(k),
{
    assert(m.remove(k).remove(k) =~= m.remove(k));
    if !m.contains_key(k) {
        assert(m.remove(k) =~= m);
    }
}

} // verus!
