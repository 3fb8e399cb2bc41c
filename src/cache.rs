//! The expiring cache: a table from keys to entries, beside an index of the
//! entries that expire, ordered by expiration instant and then by key.
use crate::instant::Instant;
use vstd::hash_map::StringHashMap;
use vstd::prelude::*;

verus! {

/// A stored value together with the instant at which it expires, if any.
pub struct Entry<V> {
    pub value: V,
    pub expires: Option<Instant>,
}

/// Whether `e` may still be returned at the clock reading `now`: it has no
/// expiration, or its expiration lies strictly after `now`.
pub open spec fn live<V>(e: Entry<V>, now: u64) -> bool {
    match e.expires {
        Some(t) => t@ > now,
        None => true,
    }
}

/// What a lookup of `k` in `m` at the clock reading `now` yields.
pub open spec fn lookup<V>(m: Map<Seq<char>, Entry<V>>, k: Seq<char>, now: u64) -> Option<V> {
    if m.contains_key(k) && live(m[k], now) {
        Some(m[k].value)
    } else {
        None
    }
}

/// The entries of `m` that are still live at `now`.
pub open spec fn swept<V>(m: Map<Seq<char>, Entry<V>>, now: u64) -> Map<Seq<char>, Entry<V>> {
    Map::new(|k: Seq<char>| m.contains_key(k) && live(m[k], now), |k: Seq<char>| m[k])
}

/// The table after a store of `value` under `k` with expiration `expires`,
/// and the sweep at `now` that follows it.
pub open spec fn stored<V>(
    m: Map<Seq<char>, Entry<V>>,
    k: Seq<char>,
    value: V,
    expires: Option<Instant>,
    now: u64,
) -> Map<Seq<char>, Entry<V>> {
    swept(m.insert(k, Entry { value, expires }), now)
}

/// Whether a borrowed answer agrees with the expected one.
pub open spec fn answers<V>(r: Option<&V>, expected: Option<V>) -> bool {
    match r {
        Some(v) => expected == Some(*v),
        None => expected is None,
    }
}

/// Whether `ix` is an expiration index of `m`: ordered by expiration and then
/// by key, one record per key, and holding `(t, k)` exactly when `m` maps `k` to an
/// entry that expires at `t`.
pub open spec fn index_matches<V>(m: Map<Seq<char>, Entry<V>>, ix: Seq<(u64, Seq<char>)>) -> bool {
    &&& forall|i: int, j: int| 0 <= i < j < ix.len() ==> in_order(ix[i], ix[j])
    &&& forall|i: int, j: int|
        0 <= i < ix.len() && 0 <= j < ix.len() && i != j ==> ix[i].1 != ix[j].1
    &&& forall|i: int|
        0 <= i < ix.len() ==> {
            &&& #[trigger] m.contains_key(ix[i].1)
            &&& m[ix[i].1].expires is Some
            &&& m[ix[i].1].expires->0@ == ix[i].0
        }
    &&& forall|k: Seq<char>|
        #[trigger] m.contains_key(k) && m[k].expires is Some ==> exists|i: int|
            0 <= i < ix.len() && ix[i].1 == k
}

/// Whether the byte string `a` comes strictly before `b` in lexicographic
/// order: after a common prefix of length `n`, either `a` ends or its next
/// byte is the smaller.
pub open spec fn bytes_before(a: Seq<u8>, b: Seq<u8>) -> bool {
    exists|n: int|
        0 <= n <= a.len() && n < b.len() && #[trigger] a.subrange(0, n) == b.subrange(0, n) && (n
            == a.len() || a[n] < b[n])
}

/// The bytes of a key.
pub open spec fn key_bytes(k: Seq<char>) -> Seq<u8> {
    vstd::utf8::encode_utf8(k)
}

/// Whether record `a` may stand before record `b` in an expiration index:
/// it expires earlier, or at the same instant under a key that `b`'s key
/// does not come before.
pub open spec fn in_order(a: (u64, Seq<char>), b: (u64, Seq<char>)) -> bool {
    a.0 < b.0 || (a.0 == b.0 && !bytes_before(key_bytes(b.1), key_bytes(a.1)))
}

/// Byte strings equal on a prefix agree at each position of it, and on each
/// shorter prefix.
proof fn lemma_common_prefix(a: Seq<u8>, b: Seq<u8>, n: int, j: int)
    requires
        0 <= j < n <= a.len(),
        n <= b.len(),
        a.subrange(0, n) == b.subrange(0, n),
    ensures
        a[j] == b[j],
        a.subrange(0, j) == b.subrange(0, j),
{
    assert(a.subrange(0, n)[j] == a[j]);
    assert(b.subrange(0, n)[j] == b[j]);
    assert(a.subrange(0, j) =~= a.subrange(0, n).subrange(0, j));
    assert(b.subrange(0, j) =~= b.subrange(0, n).subrange(0, j));
}

/// No byte string comes before one that comes before it.
proof fn lemma_bytes_before_asymmetric(a: Seq<u8>, b: Seq<u8>)
    requires
        bytes_before(a, b),
    ensures
        !bytes_before(b, a),
{
    let n1 = choose|n: int|
        0 <= n <= a.len() && n < b.len() && #[trigger] a.subrange(0, n) == b.subrange(0, n) && (n
            == a.len() || a[n] < b[n]);
    if bytes_before(b, a) {
        let n2 = choose|n: int|
            0 <= n <= b.len() && n < a.len() && #[trigger] b.subrange(0, n) == a.subrange(0, n) && (
            n == b.len() || b[n] < a[n]);
        if n1 < n2 {
            lemma_common_prefix(b, a, n2, n1);
        } else if n2 < n1 {
            lemma_common_prefix(a, b, n1, n2);
        }
    }
}

/// Lexicographic order of bytes is transitive.
proof fn lemma_bytes_before_transitive(a: Seq<u8>, b: Seq<u8>, c: Seq<u8>)
    requires
        bytes_before(a, b),
        bytes_before(b, c),
    ensures
        bytes_before(a, c),
{
    let n1 = choose|n: int|
        0 <= n <= a.len() && n < b.len() && #[trigger] a.subrange(0, n) == b.subrange(0, n) && (n
            == a.len() || a[n] < b[n]);
    let n2 = choose|n: int|
        0 <= n <= b.len() && n < c.len() && #[trigger] b.subrange(0, n) == c.subrange(0, n) && (n
            == b.len() || b[n] < c[n]);
    if n1 < n2 {
        lemma_common_prefix(b, c, n2, n1);
        assert(a.subrange(0, n1) == c.subrange(0, n1));
    } else if n2 < n1 {
        lemma_common_prefix(a, b, n1, n2);
        assert(a.subrange(0, n2) == c.subrange(0, n2));
    } else {
        assert(a.subrange(0, n1) == c.subrange(0, n1));
    }
}

/// Whether `a` comes strictly before `b` in lexicographic order of bytes.
pub fn key_before(a: &String, b: &String) -> (r: bool)
    ensures
        r == bytes_before(key_bytes(a@), key_bytes(b@)),
{
    let x = a.as_str().as_bytes();
    let y = b.as_str().as_bytes();
    let mut i: usize = 0;
    while i < x.len() && i < y.len()
        invariant
            i <= x@.len(),
            i <= y@.len(),
            x@ == key_bytes(a@),
            y@ == key_bytes(b@),
            x@.subrange(0, i as int) == y@.subrange(0, i as int),
        decreases x@.len() - i,
    {
        if x[i] != y[i] {
            let r = x[i] < y[i];
            proof {
                if !r {
                    assert forall|n: int|
                        0 <= n <= x@.len() && n < y@.len() && #[trigger] x@.subrange(0, n)
                            == y@.subrange(0, n) implies !(n == x@.len() || x@[n] < y@[n]) by {
                        if n < i {
                            lemma_common_prefix(x@, y@, i as int, n);
                        } else if n > i {
                            lemma_common_prefix(x@, y@, n, i as int);
                        }
                    }
                }
            }
            return r;
        }
        assert(x@.subrange(0, i + 1) =~= x@.subrange(0, i as int).push(x@[i as int]));
        assert(y@.subrange(0, i + 1) =~= y@.subrange(0, i as int).push(y@[i as int]));
        i = i + 1;
    }
    if i < y.len() {
        true
    } else {
        proof {
            assert forall|n: int|
                0 <= n <= x@.len() && n < y@.len() && #[trigger] x@.subrange(0, n)
                    == y@.subrange(0, n) implies !(n == x@.len() || x@[n] < y@[n]) by {
                lemma_common_prefix(x@, y@, i as int, n);
            }
        }
        false
    }
}

/// Whether one of the first `p` records of `ix` has key `k`.
pub open spec fn in_prefix(ix: Seq<(u64, Seq<char>)>, p: int, k: Seq<char>) -> bool {
    exists|j: int| 0 <= j < p && #[trigger] ix[j].1 == k
}

/// Dropping the `i`-th record from the index, and its key from the table,
/// keeps the two matched.
proof fn lemma_drop_record<V>(m: Map<Seq<char>, Entry<V>>, ix: Seq<(u64, Seq<char>)>, i: int)
    requires
        index_matches(m, ix),
        0 <= i < ix.len(),
    ensures
        index_matches(m.remove(ix[i].1), ix.remove(i)),
{
    let k = ix[i].1;
    let ix2 = ix.remove(i);
    let m2 = m.remove(k);
    assert forall|a: int, b: int| 0 <= a < b < ix2.len() implies in_order(ix2[a], ix2[b]) by {
        let a1 = if a < i { a } else { a + 1 };
        let b1 = if b < i { b } else { b + 1 };
        assert(ix2[a] == ix[a1] && ix2[b] == ix[b1]);
    }
    assert forall|a: int, b: int|
        0 <= a < ix2.len() && 0 <= b < ix2.len() && a != b implies ix2[a].1 != ix2[b].1 by {
        let a1 = if a < i { a } else { a + 1 };
        let b1 = if b < i { b } else { b + 1 };
        assert(ix2[a] == ix[a1] && ix2[b] == ix[b1]);
    }
    assert forall|a: int| 0 <= a < ix2.len() implies {
        &&& #[trigger] m2.contains_key(ix2[a].1)
        &&& m2[ix2[a].1].expires is Some
        &&& m2[ix2[a].1].expires->0@ == ix2[a].0
    } by {
        let a1 = if a < i { a } else { a + 1 };
        assert(ix2[a] == ix[a1]);
        assert(m.contains_key(ix[a1].1));
    }
    assert forall|k2: Seq<char>| #[trigger] m2.contains_key(k2) && m2[k2].expires is Some implies exists|a: int|
        0 <= a < ix2.len() && ix2[a].1 == k2 by {
        assert(m.contains_key(k2));
        let a1 = choose|a1: int| 0 <= a1 < ix.len() && ix[a1].1 == k2;
        if a1 < i {
            assert(ix2[a1].1 == k2);
        } else {
            assert(ix2[a1 - 1].1 == k2);
        }
    }
}

/// Removing a key that has no record keeps table and index matched.
proof fn lemma_drop_unrecorded<V>(m: Map<Seq<char>, Entry<V>>, ix: Seq<(u64, Seq<char>)>, k: Seq<char>)
    requires
        index_matches(m, ix),
        forall|i: int| 0 <= i < ix.len() ==> ix[i].1 != k,
    ensures
        index_matches(m.remove(k), ix),
{
    let m2 = m.remove(k);
    assert forall|a: int| 0 <= a < ix.len() implies {
        &&& #[trigger] m2.contains_key(ix[a].1)
        &&& m2[ix[a].1].expires is Some
        &&& m2[ix[a].1].expires->0@ == ix[a].0
    } by {
        assert(m.contains_key(ix[a].1));
    }
    assert forall|k2: Seq<char>| #[trigger] m2.contains_key(k2) && m2[k2].expires is Some implies exists|a: int|
        0 <= a < ix.len() && ix[a].1 == k2 by {
        assert(m.contains_key(k2));
    }
}

/// Adding an entry for an absent key: with no expiration the index stays as
/// it is; with expiration `t` its record goes at a place that keeps the order.
proof fn lemma_add_entry<V>(
    m: Map<Seq<char>, Entry<V>>,
    ix: Seq<(u64, Seq<char>)>,
    k: Seq<char>,
    e: Entry<V>,
    p: int,
)
    requires
        index_matches(m, ix),
        !m.contains_key(k),
        0 <= p <= ix.len(),
        e.expires is Some ==> {
            &&& forall|j: int| 0 <= j < p ==> in_order(ix[j], (e.expires->0@, k))
            &&& forall|j: int| p <= j < ix.len() ==> in_order((e.expires->0@, k), ix[j])
        },
    ensures
        e.expires is None ==> index_matches(m.insert(k, e), ix),
        e.expires is Some ==> index_matches(m.insert(k, e), ix.insert(p, (e.expires->0@, k))),
{
    let m2 = m.insert(k, e);
    assert forall|i: int| 0 <= i < ix.len() implies ix[i].1 != k by {
        assert(m.contains_key(ix[i].1));
    }
    if e.expires is None {
        assert forall|a: int| 0 <= a < ix.len() implies {
            &&& #[trigger] m2.contains_key(ix[a].1)
            &&& m2[ix[a].1].expires is Some
            &&& m2[ix[a].1].expires->0@ == ix[a].0
        } by {
            assert(m.contains_key(ix[a].1));
        }
        assert forall|k2: Seq<char>| #[trigger] m2.contains_key(k2) && m2[k2].expires is Some implies exists|a: int|
            0 <= a < ix.len() && ix[a].1 == k2 by {
            assert(m.contains_key(k2));
        }
    } else {
        let r = (e.expires->0@, k);
        let ix2 = ix.insert(p, r);
        assert forall|a: int, b: int| 0 <= a < b < ix2.len() implies in_order(ix2[a], ix2[b]) by {
            if a < p && b < p {
                assert(ix2[a] == ix[a] && ix2[b] == ix[b]);
            } else if a < p && b == p {
                assert(ix2[a] == ix[a]);
            } else if a < p {
                assert(ix2[a] == ix[a] && ix2[b] == ix[b - 1]);
            } else if a == p {
                assert(ix2[b] == ix[b - 1]);
            } else {
                assert(ix2[a] == ix[a - 1] && ix2[b] == ix[b - 1]);
            }
        }
        assert forall|a: int, b: int|
            0 <= a < ix2.len() && 0 <= b < ix2.len() && a != b implies ix2[a].1 != ix2[b].1 by {
            let a1 = if a < p { a } else { a - 1 };
            let b1 = if b < p { b } else { b - 1 };
            if a != p && b != p {
                assert(ix2[a] == ix[a1] && ix2[b] == ix[b1]);
            } else if a == p {
                assert(ix2[b] == ix[b1]);
            } else {
                assert(ix2[a] == ix[a1]);
            }
        }
        assert forall|a: int| 0 <= a < ix2.len() implies {
            &&& #[trigger] m2.contains_key(ix2[a].1)
            &&& m2[ix2[a].1].expires is Some
            &&& m2[ix2[a].1].expires->0@ == ix2[a].0
        } by {
            if a != p {
                let a1 = if a < p { a } else { a - 1 };
                assert(ix2[a] == ix[a1]);
                assert(m.contains_key(ix[a1].1));
            }
        }
        assert forall|k2: Seq<char>| #[trigger] m2.contains_key(k2) && m2[k2].expires is Some implies exists|a: int|
            0 <= a < ix2.len() && ix2[a].1 == k2 by {
            if k2 == k {
                assert(ix2[p].1 == k2);
            } else {
                assert(m.contains_key(k2));
                let a1 = choose|a1: int| 0 <= a1 < ix.len() && ix[a1].1 == k2;
                if a1 < p {
                    assert(ix2[a1].1 == k2);
                } else {
                    assert(ix2[a1 + 1].1 == k2);
                }
            }
        }
    }
}

/// A key/value cache whose entries may expire.
///
/// Lookups compare an entry's expiration with the clock and never change the
/// cache. Each store sweeps away every entry that has expired by then; an
/// expired entry that no store follows stays in the table, unreturned.
#[verifier::reject_recursive_types(V)]
pub struct Cache<V> {
    table: StringHashMap<Entry<V>>,
    index: Vec<(u64, String)>,
}

impl<V> View for Cache<V> {
    type V = Map<Seq<char>, Entry<V>>;

    closed spec fn view(&self) -> Map<Seq<char>, Entry<V>> {
        self.table@
    }
}

impl<V> Cache<V> {
    /// The expiration index in its order, keys as character sequences.
    pub closed spec fn records(&self) -> Seq<(u64, Seq<char>)> {
        self.index@.map_values(|r: (u64, String)| (r.0, r.1@))
    }

    /// The cache's invariant: its index is an expiration index of its table.
    pub open spec fn wf(&self) -> bool {
        index_matches(self@, self.records())
    }

    /// An empty cache.
    pub fn new() -> (r: Self)
        ensures
            r.wf(),
            r@ == Map::<Seq<char>, Entry<V>>::empty(),
    {
        let r = Cache { table: StringHashMap::new(), index: Vec::new() };
        assert(r.records() =~= Seq::<(u64, Seq<char>)>::empty());
        r
    }

    /// Number of entries in the table, expired or not.
    pub fn len(&self) -> (r: usize)
        ensures
            r == self@.len(),
    {
        self.table.len()
    }

    /// Whether the table holds an entry for `key`, expired or not.
    pub fn contains_key(&self, key: &String) -> (r: bool)
        ensures
            r == self@.contains_key(key@),
    {
        self.table.contains_key(key.as_str())
    }

    /// Number of records in the expiration index.
    pub fn expiration_count(&self) -> (r: usize)
        ensures
            r == self.records().len(),
    {
        self.index.len()
    }

    /// Position of the index record for `key`, if there is one.
    fn find_record(&self, key: &String) -> (r: Option<usize>)
        ensures
            match r {
                Some(i) => i < self.records().len() && self.records()[i as int].1 == key@,
                None => forall|i: int|
                    0 <= i < self.records().len() ==> self.records()[i].1 != key@,
            },
    {
        let mut i: usize = 0;
        while i < self.index.len()
            invariant
                i <= self.index@.len(),
                forall|j: int| 0 <= j < i ==> self.records()[j].1 != key@,
            decreases self.index@.len() - i,
        {
            if self.index[i].1 == *key {
                return Some(i);
            }
            i = i + 1;
        }
        None
    }

    /// Where a record for `key` expiring at `t` goes: after every record that
    /// expires earlier, or at `t` under a key that does not come after `key`.
    fn insertion_point(&self, t: u64, key: &String) -> (p: usize)
        requires
            forall|i: int, j: int|
                0 <= i < j < self.records().len() ==> in_order(self.records()[i], self.records()[j]),
        ensures
            p <= self.records().len(),
            forall|j: int| 0 <= j < p ==> in_order(self.records()[j], (t, key@)),
            forall|j: int| p <= j < self.records().len() ==> in_order((t, key@), self.records()[j]),
    {
        let ghost ix = self.records();
        let ghost kb = key_bytes(key@);
        let mut p: usize = 0;
        while p < self.index.len()
            invariant
                p <= self.index@.len(),
                ix == self.records(),
                kb == key_bytes(key@),
                forall|j: int| 0 <= j < p ==> in_order(ix[j], (t, key@)),
            ensures
                p <= self.index@.len(),
                forall|j: int| 0 <= j < p ==> in_order(ix[j], (t, key@)),
                p < ix.len() ==> (ix[p as int].0 > t || (ix[p as int].0 == t && bytes_before(
                    kb,
                    key_bytes(ix[p as int].1),
                ))),
            decreases self.index@.len() - p,
        {
            let r = &self.index[p];
            assert(ix[p as int] == (r.0, r.1@));
            if r.0 > t || (r.0 == t && key_before(key, &r.1)) {
                break;
            }
            p = p + 1;
        }
        proof {
            assert forall|j: int| p <= j < ix.len() implies in_order((t, key@), ix[j]) by {
                if j > p {
                    assert(in_order(ix[p as int], ix[j]));
                }
                if ix[j].0 == t {
                    let pb = key_bytes(ix[p as int].1);
                    let jb = key_bytes(ix[j].1);
                    if bytes_before(jb, kb) {
                        if j == p {
                            lemma_bytes_before_asymmetric(kb, pb);
                        } else {
                            lemma_bytes_before_transitive(jb, kb, pb);
                        }
                    }
                }
            }
        }
        p
    }

    /// Removes every entry that has expired at `now`, with its record: the
    /// records that expire by `now` form a prefix of the index.
    fn sweep(&mut self, now: Instant)
        requires
            old(self).wf(),
        ensures
            final(self).wf(),
            final(self)@ == swept(old(self)@, now@),
            forall|i: int|
                0 <= i < final(self).records().len() ==> final(self).records()[i].0 > now@,
    {
        let ghost m = self@;
        let ghost ix = self.records();
        let limit = now.as_nanos();
        let mut p: usize = 0;
        while p < self.index.len() && self.index[p].0 <= limit
            invariant
                self.records() == ix,
                index_matches(m, ix),
                limit == now@,
                p <= ix.len(),
                forall|j: int| 0 <= j < p ==> ix[j].0 <= now@,
                self.table@ == Map::new(
                    |k: Seq<char>| m.contains_key(k) && !in_prefix(ix, p as int, k),
                    |k: Seq<char>| m[k],
                ),
            ensures
                p <= ix.len(),
                forall|j: int| 0 <= j < p ==> ix[j].0 <= now@,
                p < ix.len() ==> ix[p as int].0 > now@,
                self.records() == ix,
                self.table@ == Map::new(
                    |k: Seq<char>| m.contains_key(k) && !in_prefix(ix, p as int, k),
                    |k: Seq<char>| m[k],
                ),
            decreases self.index@.len() - p,
        {
            let ghost before = self.table@;
            self.table.remove(self.index[p].1.as_str());
            proof {
                assert(ix[p as int].1 == self.index@[p as int].1@);
                assert forall|k: Seq<char>| in_prefix(ix, p + 1, k) == (in_prefix(ix, p as int, k) || ix[p as int].1 == k) by {
                    if in_prefix(ix, p + 1, k) && ix[p as int].1 != k {
                        let j = choose|j: int| 0 <= j < p + 1 && #[trigger] ix[j].1 == k;
                        assert(j < p);
                    }
                }
                assert(self.table@ =~= Map::new(
                    |k: Seq<char>| m.contains_key(k) && !in_prefix(ix, p + 1, k),
                    |k: Seq<char>| m[k],
                ));
            }
            p = p + 1;
        }
        let rest = self.index.split_off(p);
        self.index = rest;
        proof {
            let ix2 = ix.subrange(p as int, ix.len() as int);
            assert(self.records() =~= ix2);
            assert forall|i: int, j: int| 0 <= i < ix2.len() && p <= j < ix.len() && ix[j].1 == ix2[i].1 implies j == i + p by {
                assert(ix2[i] == ix[i + p]);
            }
            assert forall|k: Seq<char>| m.contains_key(k) implies (in_prefix(ix, p as int, k) <==> !live(m[k], now@)) by {
                if in_prefix(ix, p as int, k) {
                    let j = choose|j: int| 0 <= j < p && #[trigger] ix[j].1 == k;
                    assert(m.contains_key(ix[j].1));
                } else if !live(m[k], now@) {
                    let j = choose|j: int| 0 <= j < ix.len() && ix[j].1 == k;
                    assert(m.contains_key(ix[j].1));
                    if j > p {
                        assert(in_order(ix[p as int], ix[j]));
                    }
                    assert(in_prefix(ix, p as int, k));
                }
            }
            assert(self.table@ =~= swept(m, now@));
            let m2 = self.table@;
            assert forall|a: int| 0 <= a < ix2.len() implies {
                &&& #[trigger] m2.contains_key(ix2[a].1)
                &&& m2[ix2[a].1].expires is Some
                &&& m2[ix2[a].1].expires->0@ == ix2[a].0
            } by {
                assert(ix2[a] == ix[a + p]);
                assert(m.contains_key(ix[a + p].1));
                if in_prefix(ix, p as int, ix2[a].1) {
                    let j = choose|j: int| 0 <= j < p && #[trigger] ix[j].1 == ix2[a].1;
                    assert(j != a + p);
                }
            }
            assert forall|k2: Seq<char>| #[trigger] m2.contains_key(k2) && m2[k2].expires is Some implies exists|a: int|
                0 <= a < ix2.len() && ix2[a].1 == k2 by {
                assert(m.contains_key(k2));
                let j = choose|j: int| 0 <= j < ix.len() && ix[j].1 == k2;
                if j < p {
                    assert(in_prefix(ix, p as int, k2));
                }
                assert(ix2[j - p].1 == k2);
            }
            assert forall|a: int, b: int| 0 <= a < b < ix2.len() implies in_order(ix2[a], ix2[b]) by {
                assert(ix2[a] == ix[a + p] && ix2[b] == ix[b + p]);
            }
            assert forall|a: int, b: int|
                0 <= a < ix2.len() && 0 <= b < ix2.len() && a != b implies ix2[a].1 != ix2[b].1 by {
                assert(ix2[a] == ix[a + p] && ix2[b] == ix[b + p]);
            }
            assert forall|a: int| 0 <= a < ix2.len() implies ix2[a].0 > now@ by {
                assert(ix2[a] == ix[a + p]);
                if a > 0 {
                    assert(in_order(ix[p as int], ix[a + p]));
                }
            }
        }
    }

    /// Drops `key`'s entry and its record, if there are any.
    fn unrecord(&mut self, key: &String)
        requires
            old(self).wf(),
        ensures
            final(self).wf(),
            final(self)@ == old(self)@.remove(key@),
    {
        let ghost ix = self.records();
        match self.find_record(key) {
            Some(i) => {
                self.index.remove(i);
                proof {
                    assert(self.records() =~= ix.remove(i as int));
                    lemma_drop_record(old(self)@, ix, i as int);
                }
            },
            None => {
                proof {
                    lemma_drop_unrecorded(old(self)@, ix, key@);
                }
            },
        }
        self.table.remove(key.as_str());
    }

    /// Stores `value` under `key` with an optional expiration, replacing any
    /// earlier entry and its record, then removes every entry that has expired
    /// at `now`.
    pub fn put_exp_at(&mut self, key: String, value: V, expires: Option<Instant>, now: Instant)
        requires
            old(self).wf(),
        ensures
            final(self).wf(),
            final(self)@ == stored(old(self)@, key@, value, expires, now@),
            forall|i: int|
                0 <= i < final(self).records().len() ==> final(self).records()[i].0 > now@,
    {
        self.unrecord(&key);
        let ghost m = self@;
        let ghost ix = self.records();
        let ghost e = Entry { value, expires };
        proof {
            assert(m.insert(key@, e) =~= old(self)@.insert(key@, e));
        }
        match expires {
            Some(t) => {
                let p = self.insertion_point(t.as_nanos(), &key);
                self.index.insert(p, (t.as_nanos(), key.clone()));
                proof {
                    assert(self.records() =~= ix.insert(p as int, (t@, key@)));
                    lemma_add_entry(m, ix, key@, e, p as int);
                }
                self.table.insert(key, Entry { value, expires });
            },
            None => {
                proof {
                    lemma_add_entry(m, ix, key@, e, 0);
                }
                self.table.insert(key, Entry { value, expires });
            },
        }
        self.sweep(now);
    }

    /// Stores `value` under `key` with no expiration, then removes every entry
    /// that has expired at `now`.
    pub fn put_at(&mut self, key: String, value: V, now: Instant)
        requires
            old(self).wf(),
        ensures
            final(self).wf(),
            final(self)@ == stored(old(self)@, key@, value, None, now@),
    {
        self.put_exp_at(key, value, None, now)
    }

    /// Stores `value` under `key` with an optional expiration, replacing any
    /// earlier entry, then removes every entry that has expired by the clock's
    /// current reading.
    pub fn put_exp(&mut self, key: String, value: V, expires: Option<Instant>)
        requires
            old(self).wf(),
        ensures
            final(self).wf(),
            exists|now: u64| final(self)@ == stored(old(self)@, key@, value, expires, now),
    {
        let now = Instant::now();
        self.put_exp_at(key, value, expires, now)
    }

    /// Stores `value` under `key`; the entry never expires.
    pub fn put(&mut self, key: String, value: V)
        requires
            old(self).wf(),
        ensures
            final(self).wf(),
            exists|now: u64| final(self)@ == stored(old(self)@, key@, value, None, now),
    {
        self.put_exp(key, value, None)
    }

    /// Deletes any entry for `key`, with its record; nothing happens when
    /// there is none.
    pub fn delete(&mut self, key: &String)
        requires
            old(self).wf(),
        ensures
            final(self).wf(),
            final(self)@ == old(self)@.remove(key@),
    {
        self.unrecord(key)
    }

    /// Returns the value stored for `key` if it has not expired at `now`.
    pub fn get_at(&self, key: &String, now: Instant) -> (r: Option<&V>)
        ensures
            answers(r, lookup(self@, key@, now@)),
    {
        match self.table.get(key.as_str()) {
            Some(entry) => {
                match entry.expires {
                    Some(t) => {
                        if t.as_nanos() <= now.as_nanos() {
                            None
                        } else {
                            Some(&entry.value)
                        }
                    },
                    None => Some(&entry.value),
                }
            },
            None => None,
        }
    }

    /// Returns the value stored for `key` if it has not expired by the clock's
    /// current reading.
    pub fn get(&self, key: &String) -> (r: Option<&V>)
        ensures
            exists|now: u64| answers(r, lookup(self@, key@, now)),
            !self@.contains_key(key@) ==> r is None,
            self@.contains_key(key@) && self@[key@].expires is None ==> answers(
                r,
                Some(self@[key@].value),
            ),
    {
        let now = Instant::now();
        self.get_at(key, now)
    }
}

impl<V> Default for Cache<V> {
    /// An empty cache.
    fn default() -> (r: Self)
        ensures
            r.wf(),
            r@ == Map::<Seq<char>, Entry<V>>::empty(),
    {
        Cache::new()
    }
}

} // verus!
