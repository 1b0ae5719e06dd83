//! Open-addressing hash table with linear probing: a cache-friendly bounded
//! map from integer keys to values, with tombstones marking removed entries.

use vstd::prelude::*;

verus! {

/// The FNV-1a offset basis.
pub const FNV_OFFSET: u64 = 0xcbf29ce484222325;

/// The FNV-1a prime.
pub const FNV_PRIME: u64 = 0x100000001b3;

/// One FNV-1a round: fold a byte into the running state.
pub open spec fn fnv1a_step(state: u64, b: u8) -> u64 {
    (state ^ (b as u64)).wrapping_mul(FNV_PRIME)
}

/// The FNV-1a state after folding in every byte, first byte first.
pub open spec fn fnv1a(state: u64, bytes: Seq<u8>) -> u64
    decreases bytes.len(),
{
    if bytes.len() == 0 {
        state
    } else {
        fnv1a(fnv1a_step(state, bytes[0]), bytes.drop_first())
    }
}

/// The little-endian bytes of a key.
pub open spec fn le_bytes(k: u64) -> Seq<u8> {
    seq![
        (k & 0xff) as u8,
        ((k >> 8) & 0xff) as u8,
        ((k >> 16) & 0xff) as u8,
        ((k >> 24) & 0xff) as u8,
        ((k >> 32) & 0xff) as u8,
        ((k >> 40) & 0xff) as u8,
        ((k >> 48) & 0xff) as u8,
        ((k >> 56) & 0xff) as u8,
    ]
}

/// The hash of a key: FNV-1a over its little-endian bytes.
pub open spec fn spec_hash(k: u64) -> u64 {
    fnv1a(FNV_OFFSET, le_bytes(k))
}

/// The home bucket of a key in a table of `n` buckets.
pub open spec fn home_bucket(k: u64, n: int) -> int {
    (spec_hash(k) as int) % n
}

/// The bucket probed `d` steps after bucket `h` in a table of `n` buckets,
/// wrapping past the end at most once.
pub open spec fn probe_bucket(h: int, d: int, n: int) -> int {
    if h + d < n {
        h + d
    } else {
        h + d - n
    }
}

/// How many probe steps separate bucket `h` from bucket `i`.
pub open spec fn probe_dist(h: int, i: int, n: int) -> int {
    if i >= h {
        i - h
    } else {
        i + n - h
    }
}

proof fn lemma_fnv1a_snoc(state: u64, s: Seq<u8>, b: u8)
    ensures
        fnv1a(state, s.push(b)) == fnv1a_step(fnv1a(state, s), b),
    decreases s.len(),
{
    if s.len() == 0 {
        assert(s.push(b)[0] == b);
        assert(s.push(b).drop_first() =~= Seq::<u8>::empty());
        assert(fnv1a(fnv1a_step(state, b), Seq::<u8>::empty()) == fnv1a_step(state, b));
    } else {
        assert(s.push(b)[0] == s[0]);
        assert(s.push(b).drop_first() =~= s.drop_first().push(b));
        lemma_fnv1a_snoc(fnv1a_step(state, s[0]), s.drop_first(), b);
    }
}

proof fn lemma_byte_mask(x: u64)
    ensures
        x & 0xff < 256,
{
    assert(x & 0xff < 256) by (bit_vector);
}

/// One table slot: free, live with a key and value, or a tombstone left by a
/// removal.
enum Bucket<V> {
    Empty,
    Occupied(u64, V),
    Deleted,
}

impl<V> Bucket<V> {
    fn new() -> (b: Self)
        ensures
            b is Empty,
    {
        Bucket::Empty
    }

    #[inline]
    fn is_occupied(&self) -> (r: bool)
        ensures
            r <==> self is Occupied,
    {
        matches!(self, Bucket::Occupied(_, _))
    }
}

/// How many slots of the run hold a live entry.
spec fn count_occ<V>(s: Seq<Bucket<V>>) -> int
    decreases s.len(),
{
    if s.len() == 0 {
        0
    } else {
        count_occ(s.drop_first()) + if s[0] is Occupied {
            1int
        } else {
            0int
        }
    }
}

proof fn lemma_count_occ_bounds<V>(s: Seq<Bucket<V>>)
    ensures
        0 <= count_occ(s) <= s.len(),
    decreases s.len(),
{
    if s.len() > 0 {
        lemma_count_occ_bounds(s.drop_first());
    }
}

proof fn lemma_count_occ_update<V>(s: Seq<Bucket<V>>, i: int, b: Bucket<V>)
    requires
        0 <= i < s.len(),
    ensures
        count_occ(s.update(i, b)) == count_occ(s) + (if b is Occupied {
            1int
        } else {
            0int
        }) - (if s[i] is Occupied {
            1int
        } else {
            0int
        }),
    decreases s.len(),
{
    if i == 0 {
        assert(s.update(0, b).drop_first() =~= s.drop_first());
    } else {
        assert(s.update(i, b).drop_first() =~= s.drop_first().update(i - 1, b));
        assert(s.update(i, b)[0] == s[0]);
        lemma_count_occ_update(s.drop_first(), i - 1, b);
    }
}

proof fn lemma_count_occ_pos<V>(s: Seq<Bucket<V>>, i: int)
    requires
        0 <= i < s.len(),
        s[i] is Occupied,
    ensures
        count_occ(s) >= 1,
    decreases s.len(),
{
    if i > 0 {
        lemma_count_occ_pos(s.drop_first(), i - 1);
    }
    lemma_count_occ_bounds(s.drop_first());
}

/// A dead-simple (and fast, of course) hash function based on FNV-1a
struct Fnv1aHasher {
    state: u64,
}

impl Fnv1aHasher {
    /// The running state.
    spec fn spec_state(&self) -> u64 {
        self.state
    }

    fn new() -> (h: Self)
        ensures
            h.spec_state() == FNV_OFFSET,
    {
        Fnv1aHasher { state: FNV_OFFSET }
    }

    /// The accumulated hash.
    fn finish(&self) -> (r: u64)
        ensures
            r == self.spec_state(),
    {
        self.state
    }

    /// Folds the bytes into the state, first byte first.
    fn write(&mut self, bytes: &[u8])
        ensures
            final(self).spec_state() == fnv1a(old(self).spec_state(), bytes@),
    {
        let ghost state0 = self.state;
        let mut i: usize = 0;
        while i < bytes.len()
            invariant
                i <= bytes@.len(),
                self.state == fnv1a(state0, bytes@.take(i as int)),
            decreases bytes@.len() - i,
        {
            let byte = bytes[i];
            self.state = (self.state ^ (byte as u64)).wrapping_mul(FNV_PRIME);
            proof {
                assert(bytes@.take(i + 1) =~= bytes@.take(i as int).push(bytes@[i as int]));
                lemma_fnv1a_snoc(state0, bytes@.take(i as int), bytes@[i as int]);
            }
            i += 1;
        }
        proof {
            assert(bytes@.take(bytes@.len() as int) =~= bytes@);
        }
    }
}

/// HashMap implementation designed to be cache-friendly,
/// using open addressing and linear probing.
///
/// Capacity must be a power of 2.
pub struct HashMap<V, const N: usize> {
    buckets: Vec<Bucket<V>>,
    len: usize,
}

/// Errors reported by [`HashMap`] operations.
#[derive(Debug, Clone, Copy, PartialEq, Eq)]
pub enum HashMapError {
    Full,
    NotFound,
}

/// Whether slot `i` of the run holds key `k`.
spec fn occ_at<V>(s: Seq<Bucket<V>>, i: int, k: u64) -> bool {
    &&& 0 <= i < s.len()
    &&& s[i] is Occupied
    &&& s[i]->Occupied_0 == k
}

/// Whether some slot of the run holds key `k`.
spec fn has_key<V>(s: Seq<Bucket<V>>, k: u64) -> bool {
    exists|i: int| occ_at(s, i, k)
}

/// The slot of the run holding key `k`, when one does.
spec fn slot_of<V>(s: Seq<Bucket<V>>, k: u64) -> int {
    choose|i: int| occ_at(s, i, k)
}

/// The association of keys to values that a run of slots stores.
spec fn buckets_map<V>(s: Seq<Bucket<V>>) -> Map<u64, V> {
    Map::new(|k: u64| has_key(s, k), |k: u64| s[slot_of(s, k)]->Occupied_1)
}

/// No two live slots of the run hold the same key.
spec fn keys_unique<V>(s: Seq<Bucket<V>>) -> bool {
    forall|i: int, j: int|
        0 <= i < j < s.len() && s[i] is Occupied && s[j] is Occupied
            ==> s[i]->Occupied_0 != s[j]->Occupied_0
}

/// Each live key's probe run from its home bucket to its slot crosses no free
/// slot, so linear probing from the home bucket reaches every live key.
spec fn chains_ok<V>(s: Seq<Bucket<V>>) -> bool {
    forall|i: int|
        0 <= i < s.len() && s[i] is Occupied ==> forall|d: int|
            0 <= d < probe_dist(
                home_bucket(#[trigger] s[i]->Occupied_0, s.len() as int),
                i,
                s.len() as int,
            ) ==> !(s[#[trigger] probe_bucket(
                home_bucket(s[i]->Occupied_0, s.len() as int),
                d,
                s.len() as int,
            )] is Empty)
}

impl<V, const N: usize> HashMap<V, N> {
    /// Whether bucket `i` holds key `k`.
    #[verifier::inline]
    spec fn occ_at(&self, i: int, k: u64) -> bool {
        occ_at(self.buckets@, i, k)
    }

    /// Whether some bucket holds key `k`.
    #[verifier::inline]
    spec fn has_key(&self, k: u64) -> bool {
        has_key(self.buckets@, k)
    }

    /// The bucket holding key `k`, when one does.
    #[verifier::inline]
    spec fn slot_of(&self, k: u64) -> int {
        slot_of(self.buckets@, k)
    }

    /// The stored association of keys to values.
    pub closed spec fn as_map(&self) -> Map<u64, V> {
        buckets_map(self.buckets@)
    }

    /// The number of live entries.
    pub closed spec fn spec_len(&self) -> nat {
        self.len as nat
    }

    /// Whether any slot is still free; linear probing finds a free slot for a
    /// new key exactly when one exists.
    pub closed spec fn has_free_slot(&self) -> bool {
        exists|i: int| 0 <= i < self.buckets@.len() && self.buckets@[i] is Empty
    }

    /// Every key occupies one slot; each live key's probe run from its home
    /// bucket to its slot crosses no free slot; the entry count matches the
    /// live slots.
    pub closed spec fn wf(&self) -> bool {
        let s = self.buckets@;
        &&& s.len() == N
        &&& N > 0
        &&& self.len == count_occ(s)
        &&& keys_unique(s)
        &&& chains_ok(s)
    }

    /// Creates an empty table. The capacity must be a power of two.
    pub fn new() -> (m: Self)
        requires
            N > 0,
            ((N as u64) & ((N - 1) as u64)) == 0,
        ensures
            m.wf(),
            m.as_map() == Map::<u64, V>::empty(),
            m.spec_len() == 0,
            m.has_free_slot(),
    {
        let mut buckets: Vec<Bucket<V>> = Vec::new();
        let mut i: usize = 0;
        while i < N
            invariant
                i <= N,
                buckets@.len() == i,
                forall|j: int| 0 <= j < i ==> buckets@[j] is Empty,
            decreases N - i,
        {
            buckets.push(Bucket::new());
            i += 1;
        }
        let m = HashMap { buckets, len: 0 };
        proof {
            lemma_count_all_empty(m.buckets@);
            assert(m.as_map() =~= Map::<u64, V>::empty());
            assert(m.buckets@[0] is Empty);
        }
        m
    }

    #[inline]
    pub fn capacity(&self) -> (r: usize)
        ensures
            r == N,
    {
        N
    }

    #[inline]
    pub fn len(&self) -> (r: usize)
        ensures
            r == self.spec_len(),
    {
        self.len
    }

    #[inline]
    pub fn is_empty(&self) -> (r: bool)
        ensures
            r <==> self.spec_len() == 0,
    {
        self.len == 0
    }

    /// Whether the table refuses further new keys: load at or past three
    /// quarters of the bucket count.
    #[inline]
    pub fn is_full(&self) -> (r: bool)
        ensures
            r <==> self.spec_len() >= N * 3 / 4,
    {
        let threshold = ((N as u128) * 3 / 4) as usize;
        proof {
            assert((N as int) * 3 / 4 <= N as int);
        }
        self.len >= threshold
    }

    /// The home bucket of a key.
    fn hash_key(&self, key: &u64) -> (r: usize)
        requires
            N > 0,
        ensures
            r == home_bucket(*key, N as int),
            r < N,
    {
        let k: u64 = *key;
        proof {
            lemma_byte_mask(k);
            lemma_byte_mask(k >> 8);
            lemma_byte_mask(k >> 16);
            lemma_byte_mask(k >> 24);
            lemma_byte_mask(k >> 32);
            lemma_byte_mask(k >> 40);
            lemma_byte_mask(k >> 48);
            lemma_byte_mask(k >> 56);
        }
        let mut bytes: Vec<u8> = Vec::new();
        bytes.push((k & 0xff) as u8);
        bytes.push(((k >> 8) & 0xff) as u8);
        bytes.push(((k >> 16) & 0xff) as u8);
        bytes.push(((k >> 24) & 0xff) as u8);
        bytes.push(((k >> 32) & 0xff) as u8);
        bytes.push(((k >> 40) & 0xff) as u8);
        bytes.push(((k >> 48) & 0xff) as u8);
        bytes.push(((k >> 56) & 0xff) as u8);
        proof {
            assert(bytes@ =~= le_bytes(k));
        }
        let mut hasher = Fnv1aHasher::new();
        hasher.write(bytes.as_slice());
        let h = hasher.finish();
        (h % (N as u64)) as usize
    }
}

/// The slot holding a key is the one `slot_of` picks, and the stored map
/// reads its value from it.
proof fn lemma_slot_entry_of<V>(s: Seq<Bucket<V>>, i: int, k: u64)
    requires
        keys_unique(s),
        occ_at(s, i, k),
    ensures
        slot_of(s, k) == i,
        has_key(s, k),
        buckets_map(s).contains_key(k),
        buckets_map(s)[k] == s[i]->Occupied_1,
{
    assert(has_key(s, k));
    let j = slot_of(s, k);
    assert(occ_at(s, j, k));
    if i < j {
        assert(s[i]->Occupied_0 != s[j]->Occupied_0);
    } else if j < i {
        assert(s[j]->Occupied_0 != s[i]->Occupied_0);
    }
}

/// Overwriting the value of a live slot turns the stored map into the map
/// with that slot's key bound to the new value, and changes nothing else.
proof fn lemma_map_set_value<V>(s: Seq<Bucket<V>>, i: int, v: V)
    requires
        keys_unique(s),
        chains_ok(s),
        0 <= i < s.len(),
        s[i] is Occupied,
    ensures
        keys_unique(s.update(i, Bucket::Occupied(s[i]->Occupied_0, v))),
        chains_ok(s.update(i, Bucket::Occupied(s[i]->Occupied_0, v))),
        count_occ(s.update(i, Bucket::Occupied(s[i]->Occupied_0, v))) == count_occ(s),
        buckets_map(s.update(i, Bucket::Occupied(s[i]->Occupied_0, v))) == buckets_map(s).insert(
            s[i]->Occupied_0,
            v,
        ),
{
    let k = s[i]->Occupied_0;
    let s1 = s.update(i, Bucket::Occupied(k, v));
    lemma_count_occ_update(s, i, Bucket::Occupied(k, v));
    let n = s.len() as int;
    assert forall|j: int, d: int|
        0 <= j < s1.len() && s1[j] is Occupied && 0 <= d < probe_dist(
            home_bucket(s1[j]->Occupied_0, n),
            j,
            n,
        ) implies !(s1[#[trigger] probe_bucket(home_bucket(s1[j]->Occupied_0, n), d, n)] is Empty) by {
        let kj = s1[j]->Occupied_0;
        assert(s[j] is Occupied && s[j]->Occupied_0 == kj);
        assert(!(s[probe_bucket(home_bucket(kj, n), d, n)] is Empty));
    }
    let m2 = buckets_map(s1);
    let m1 = buckets_map(s).insert(k, v);
    lemma_slot_entry_of(s1, i, k);
    assert forall|q: u64| #[trigger] m2.contains_key(q) implies m1.contains_key(q) && m2[q]
        == m1[q] by {
        let j = choose|j: int| occ_at(s1, j, q);
        if j == i {
            assert(q == k);
        } else {
            assert(occ_at(s, j, q));
            lemma_slot_entry_of(s, j, q);
            lemma_slot_entry_of(s1, j, q);
        }
    }
    assert forall|q: u64| #[trigger] m1.contains_key(q) implies m2.contains_key(q) by {
        if q != k {
            let j = choose|j: int| occ_at(s, j, q);
            assert(occ_at(s1, j, q));
        }
    }
    assert(m2 =~= m1);
}

/// Claiming a free slot at the end of a key's probe run adds exactly that
/// association to the stored map and keeps every probe run intact.
proof fn lemma_insert_new_slot<V>(s: Seq<Bucket<V>>, i: int, k: u64, v: V)
    requires
        keys_unique(s),
        chains_ok(s),
        0 <= i < s.len(),
        s[i] is Empty,
        !has_key(s, k),
        i == probe_bucket(
            home_bucket(k, s.len() as int),
            probe_dist(home_bucket(k, s.len() as int), i, s.len() as int),
            s.len() as int,
        ),
        forall|e: int|
            0 <= e < probe_dist(home_bucket(k, s.len() as int), i, s.len() as int) ==> !(s[
            #[trigger] probe_bucket(home_bucket(k, s.len() as int), e, s.len() as int)] is Empty),
    ensures
        keys_unique(s.update(i, Bucket::Occupied(k, v))),
        chains_ok(s.update(i, Bucket::Occupied(k, v))),
        count_occ(s.update(i, Bucket::Occupied(k, v))) == count_occ(s) + 1,
        buckets_map(s.update(i, Bucket::Occupied(k, v))) == buckets_map(s).insert(k, v),
{
    let n = s.len() as int;
    let s1 = s.update(i, Bucket::Occupied(k, v));
    let h = home_bucket(k, n);
    lemma_count_occ_update(s, i, Bucket::Occupied(k, v));
    assert forall|a: int, b: int|
        0 <= a < b < s1.len() && s1[a] is Occupied && s1[b] is Occupied implies s1[a]->Occupied_0
        != s1[b]->Occupied_0 by {
        if a != i && b != i {
            assert(s[a] is Occupied && s[b] is Occupied);
        } else if a == i {
            assert(occ_at(s, b, s[b]->Occupied_0));
        } else {
            assert(occ_at(s, a, s[a]->Occupied_0));
        }
    }
    assert forall|j: int, d: int|
        0 <= j < s1.len() && s1[j] is Occupied && 0 <= d < probe_dist(
            home_bucket(s1[j]->Occupied_0, n),
            j,
            n,
        ) implies !(s1[#[trigger] probe_bucket(home_bucket(s1[j]->Occupied_0, n), d, n)] is Empty) by {
        let kj = s1[j]->Occupied_0;
        let hj = home_bucket(kj, n);
        if j == i {
            assert(!(s[probe_bucket(h, d, n)] is Empty));
            assert(probe_dist(h, probe_bucket(h, d, n), n) == d);
        } else {
            assert(s[j] is Occupied && s[j]->Occupied_0 == kj);
            assert(!(s[probe_bucket(hj, d, n)] is Empty));
        }
    }
    let m2 = buckets_map(s1);
    let m1 = buckets_map(s).insert(k, v);
    lemma_slot_entry_of(s1, i, k);
    assert forall|q: u64| #[trigger] m2.contains_key(q) implies m1.contains_key(q) && m2[q]
        == m1[q] by {
        let j = choose|j: int| occ_at(s1, j, q);
        if j == i {
            assert(q == k);
        } else {
            assert(occ_at(s, j, q));
            lemma_slot_entry_of(s, j, q);
            lemma_slot_entry_of(s1, j, q);
        }
    }
    assert forall|q: u64| #[trigger] m1.contains_key(q) implies m2.contains_key(q) by {
        if q != k {
            let j = choose|j: int| occ_at(s, j, q);
            assert(occ_at(s1, j, q));
        }
    }
    assert(m2 =~= m1);
}

/// Turning a live slot into a tombstone removes exactly its association from
/// the stored map and keeps every probe run intact.
proof fn lemma_remove_slot<V>(s: Seq<Bucket<V>>, i: int)
    requires
        keys_unique(s),
        chains_ok(s),
        0 <= i < s.len(),
        s[i] is Occupied,
    ensures
        keys_unique(s.update(i, Bucket::Deleted)),
        chains_ok(s.update(i, Bucket::Deleted)),
        count_occ(s.update(i, Bucket::Deleted)) == count_occ(s) - 1,
        buckets_map(s.update(i, Bucket::Deleted)) == buckets_map(s).remove(s[i]->Occupied_0),
{
    let n = s.len() as int;
    let k = s[i]->Occupied_0;
    let s1 = s.update(i, Bucket::Deleted);
    lemma_count_occ_update(s, i, Bucket::Deleted);
    assert forall|j: int, d: int|
        0 <= j < s1.len() && s1[j] is Occupied && 0 <= d < probe_dist(
            home_bucket(s1[j]->Occupied_0, n),
            j,
            n,
        ) implies !(s1[#[trigger] probe_bucket(home_bucket(s1[j]->Occupied_0, n), d, n)] is Empty) by {
        let kj = s1[j]->Occupied_0;
        let hj = home_bucket(kj, n);
        assert(s[j] is Occupied && s[j]->Occupied_0 == kj);
        assert(!(s[probe_bucket(hj, d, n)] is Empty));
    }
    let m2 = buckets_map(s1);
    let m1 = buckets_map(s).remove(k);
    lemma_slot_entry_of(s, i, k);
    assert forall|q: u64| #[trigger] m2.contains_key(q) implies m1.contains_key(q) && m2[q]
        == m1[q] by {
        let j = choose|j: int| occ_at(s1, j, q);
        assert(occ_at(s, j, q));
        lemma_slot_entry_of(s, j, q);
        lemma_slot_entry_of(s1, j, q);
    }
    assert forall|q: u64| #[trigger] m1.contains_key(q) implies m2.contains_key(q) by {
        let j = choose|j: int| occ_at(s, j, q);
        assert(j != i);
        assert(occ_at(s1, j, q));
    }
    assert(m2 =~= m1);
}

proof fn lemma_count_all_empty<V>(s: Seq<Bucket<V>>)
    requires
        forall|j: int| 0 <= j < s.len() ==> !(s[j] is Occupied),
    ensures
        count_occ(s) == 0,
    decreases s.len(),
{
    if s.len() > 0 {
        lemma_count_all_empty(s.drop_first());
    }
}

impl<V, const N: usize> HashMap<V, N> {
    /// No two live slots hold the same key.
    #[verifier::inline]
    spec fn keys_unique(&self) -> bool {
        keys_unique(self.buckets@)
    }

    /// The slot holding a key is the one `slot_of` picks, and the stored map
    /// reads its value from it.
    proof fn lemma_slot_of(&self, i: int, k: u64)
        requires
            self.keys_unique(),
            self.occ_at(i, k),
        ensures
            self.slot_of(k) == i,
            self.has_key(k),
            self.as_map().contains_key(k),
            self.as_map()[k] == self.buckets@[i]->Occupied_1,
    {
        lemma_slot_entry_of(self.buckets@, i, k);
    }

    /// Every probed slot so far was live or a tombstone, and held no match.
    spec fn probed_clear(&self, h: int, d: int, k: u64) -> bool {
        forall|e: int|
            0 <= e < d ==> !(self.buckets@[#[trigger] probe_bucket(h, e, N as int)] is Empty) && !(
            self.buckets@[probe_bucket(h, e, N as int)] is Occupied && self.buckets@[probe_bucket(
                h,
                e,
                N as int,
            )]->Occupied_0 == k)
    }

    /// A present key would have been met: if the probe run from the key's home
    /// bucket has crossed no free slot and no match over `d` steps, and step
    /// `d` is free or out of steps, the key is absent.
    proof fn lemma_absent(&self, k: u64, d: int)
        requires
            self.wf(),
            0 <= d <= N,
            self.probed_clear(home_bucket(k, N as int), d, k),
            d < N ==> self.buckets@[probe_bucket(home_bucket(k, N as int), d, N as int)] is Empty,
        ensures
            !self.has_key(k),
    {
        let h = home_bucket(k, N as int);
        if self.has_key(k) {
            let j = choose|j: int| self.occ_at(j, k);
            let dj = probe_dist(h, j, N as int);
            assert(0 <= h < N) by {
                assert(0 <= spec_hash(k) as int % (N as int) < N as int) by (nonlinear_arith)
                    requires
                        N > 0,
                ;
            }
            assert(probe_bucket(h, dj, N as int) == j);
            if dj < d {
                assert(!(self.buckets@[probe_bucket(h, dj, N as int)] is Occupied
                    && self.buckets@[probe_bucket(h, dj, N as int)]->Occupied_0 == k));
            } else if dj > d {
                assert(!(self.buckets@[probe_bucket(home_bucket(self.buckets@[j]->Occupied_0,
                    N as int), d, N as int)] is Empty));
            }
            assert(false);
        }
    }

    /// Walks the probe run of a key, reporting the slot that holds it, or
    /// `None` when it is absent: at a free slot, or with the run exhausted.
    fn find_bucket_ro(&self, key: &u64) -> (r: Option<usize>)
        requires
            self.wf(),
        ensures
            match r {
                Some(i) => self.occ_at(i as int, *key),
                None => !self.has_key(*key),
            },
    {
        let h = self.hash_key(key);
        let mut d: usize = 0;
        while d < N
            invariant
                self.wf(),
                h == home_bucket(*key, N as int),
                h < N,
                d <= N,
                self.probed_clear(h as int, d as int, *key),
            decreases N - d,
        {
            let i = if d < N - h {
                h + d
            } else {
                d - (N - h)
            };
            proof {
                assert(i as int == probe_bucket(h as int, d as int, N as int));
            }
            match &self.buckets[i] {
                Bucket::Empty => {
                    proof {
                        self.lemma_absent(*key, d as int);
                    }
                    return None;
                },
                Bucket::Occupied(k2, _) => {
                    if *k2 == *key {
                        return Some(i);
                    }
                },
                Bucket::Deleted => {},
            }
            d += 1;
        }
        proof {
            self.lemma_absent(*key, N as int);
        }
        None
    }

    /// Walks the probe run of a key for insertion: the slot that holds it
    /// (`true`), else the first free slot of the run (`false`), else `None`
    /// when the run is exhausted with no free slot.
    fn find_bucket(&self, key: &u64) -> (r: Option<(usize, bool)>)
        requires
            self.wf(),
        ensures
            match r {
                Some((i, found)) => if found {
                    self.occ_at(i as int, *key)
                } else {
                    &&& !self.has_key(*key)
                    &&& (i as int) < N
                    &&& self.buckets@[i as int] is Empty
                    &&& i as int == probe_bucket(
                        home_bucket(*key, N as int),
                        probe_dist(home_bucket(*key, N as int), i as int, N as int),
                        N as int,
                    )
                    &&& forall|e: int|
                        0 <= e < probe_dist(home_bucket(*key, N as int), i as int, N as int) ==> !(
                        self.buckets@[#[trigger] probe_bucket(
                            home_bucket(*key, N as int),
                            e,
                            N as int,
                        )] is Empty)
                },
                None => !self.has_key(*key) && !self.has_free_slot(),
            },
    {
        let h = self.hash_key(key);
        let mut d: usize = 0;
        while d < N
            invariant
                self.wf(),
                h == home_bucket(*key, N as int),
                h < N,
                d <= N,
                self.probed_clear(h as int, d as int, *key),
            decreases N - d,
        {
            let i = if d < N - h {
                h + d
            } else {
                d - (N - h)
            };
            proof {
                assert(i as int == probe_bucket(h as int, d as int, N as int));
            }
            match &self.buckets[i] {
                Bucket::Empty => {
                    proof {
                        self.lemma_absent(*key, d as int);
                        assert(probe_dist(h as int, i as int, N as int) == d as int);
                    }
                    return Some((i, false));
                },
                Bucket::Occupied(k2, _) => {
                    if *k2 == *key {
                        return Some((i, true));
                    }
                },
                Bucket::Deleted => {},
            }
            d += 1;
        }
        proof {
            self.lemma_absent(*key, N as int);
            assert forall|s: int| 0 <= s < N implies !(self.buckets@[s] is Empty) by {
                let e = probe_dist(h as int, s, N as int);
                assert(probe_bucket(h as int, e, N as int) == s);
                assert(!(self.buckets@[probe_bucket(h as int, e, N as int)] is Empty));
            }
        }
        None
    }

    /// Inserts a key-value pair into the map, returning the old value if the key already exists.
    /// Fails with `Full` at three-quarters load, or when no slot is free for a
    /// new key.
    pub fn insert(&mut self, key: u64, value: V) -> (r: Result<Option<V>, HashMapError>)
        requires
            old(self).wf(),
        ensures
            final(self).wf(),
            old(self).spec_len() >= N * 3 / 4 ==> r == Err::<Option<V>, HashMapError>(
                HashMapError::Full,
            ) && *final(self) == *old(self),
            old(self).spec_len() < N * 3 / 4 ==> match r {
                Ok(prev) => {
                    &&& final(self).as_map() == old(self).as_map().insert(key, value)
                    &&& match prev {
                        Some(v) => {
                            &&& old(self).as_map().contains_key(key)
                            &&& v == old(self).as_map()[key]
                            &&& final(self).spec_len() == old(self).spec_len()
                        },
                        None => {
                            &&& !old(self).as_map().contains_key(key)
                            &&& final(self).spec_len() == old(self).spec_len() + 1
                        },
                    }
                },
                Err(e) => {
                    &&& e == HashMapError::Full
                    &&& !old(self).as_map().contains_key(key)
                    &&& !old(self).has_free_slot()
                    &&& *final(self) == *old(self)
                },
            },
    {
        if self.is_full() {
            return Err(HashMapError::Full);
        }

        let location = self.find_bucket(&key);
        match location {
            None => Err(HashMapError::Full),
            Some((index, true)) => {
                proof {
                    self.lemma_slot_of(index as int, key);
                }
                let mut prev = value;
                match &mut self.buckets[index] {
                    Bucket::Occupied(_, v) => {
                        core::mem::swap(&mut prev, v);
                    },
                    _ => {},
                }
                proof {
                    let s0 = old(self).buckets@;
                    assert(self.buckets@ =~= s0.update(index as int, Bucket::Occupied(key, value)));
                    lemma_map_set_value(s0, index as int, value);
                }
                Ok(Some(prev))
            },
            Some((index, false)) => {
                proof {
                    lemma_count_occ_bounds(old(self).buckets@.update(
                        index as int,
                        Bucket::Occupied(key, value),
                    ));
                    lemma_count_occ_update(
                        old(self).buckets@,
                        index as int,
                        Bucket::Occupied(key, value),
                    );
                }
                self.buckets.set(index, Bucket::Occupied(key, value));
                self.len = self.len + 1;
                proof {
                    lemma_insert_new_slot(old(self).buckets@, index as int, key, value);
                    assert(self.as_map() == old(self).as_map().insert(key, value));
                }
                Ok(None)
            },
        }
    }

    /// Get a reference to a value for a given key
    pub fn get(&self, key: &u64) -> (r: Option<&V>)
        requires
            self.wf(),
        ensures
            r is Some <==> self.as_map().contains_key(*key),
            r matches Some(v) ==> *v == self.as_map()[*key],
    {
        let location = self.find_bucket_ro(key);
        match location {
            None => None,
            Some(index) => match &self.buckets[index] {
                Bucket::Occupied(_, v) => {
                    proof {
                        self.lemma_slot_of(index as int, *key);
                    }
                    Some(v)
                },
                _ => None,
            },
        }
    }

    /// Get a mut reference to a value for a given key
    pub fn get_mut(&mut self, key: &u64) -> (r: Option<&mut V>)
        requires
            old(self).wf(),
        ensures
            final(self).wf(),
            !old(self).as_map().contains_key(*key) ==> r is None && *final(self) == *old(self),
            old(self).as_map().contains_key(*key) ==> (r matches Some(p) && *p == old(
                self,
            ).as_map()[*key] && final(self).as_map() == old(self).as_map().insert(
                *key,
                *final(p),
            ) && final(self).spec_len() == old(self).spec_len()),
    {
        let location = self.find_bucket_ro(key);
        match location {
            None => {
                proof {
                    if old(self).as_map().contains_key(*key) {
                        assert(old(self).has_key(*key));
                    }
                }
                None
            },
            Some(index) => {
                proof {
                    self.lemma_slot_of(index as int, *key);
                }
                let r = match &mut self.buckets[index] {
                    Bucket::Occupied(_, v) => Some(v),
                    _ => None,
                };
                proof {
                    match &r {
                        Some(p) => {
                            lemma_map_set_value(old(self).buckets@, index as int, *final(*p));
                        },
                        None => {},
                    }
                }
                r
            },
        }
    }

    /// Remove a key-value pair from the map, returning the value if the key was present.
    pub fn remove(&mut self, key: &u64) -> (r: Option<V>)
        requires
            old(self).wf(),
        ensures
            final(self).wf(),
            r is Some <==> old(self).as_map().contains_key(*key),
            r matches Some(v) ==> {
                &&& v == old(self).as_map()[*key]
                &&& final(self).as_map() == old(self).as_map().remove(*key)
                &&& final(self).spec_len() == old(self).spec_len() - 1
            },
            r is None ==> *final(self) == *old(self),
    {
        let location = self.find_bucket_ro(key);
        match location {
            None => None,
            Some(index) => {
                proof {
                    self.lemma_slot_of(index as int, *key);
                    lemma_count_occ_pos(self.buckets@, index as int);
                    lemma_count_occ_update(self.buckets@, index as int, Bucket::Deleted);
                }
                let mut slot = Bucket::Deleted;
                core::mem::swap(&mut slot, &mut self.buckets[index]);
                let value = match slot {
                    Bucket::Occupied(_, v) => v,
                    _ => {
                        return None;
                    },
                };
                self.len = self.len - 1;
                proof {
                    assert(self.buckets@ =~= old(self).buckets@.update(
                        index as int,
                        Bucket::Deleted,
                    ));
                    lemma_remove_slot(old(self).buckets@, index as int);
                }
                Some(value)
            },
        }
    }

    /// Whether the key is present.
    pub fn contains_key(&self, key: &u64) -> (r: bool)
        requires
            self.wf(),
        ensures
            r <==> self.as_map().contains_key(*key),
    {
        self.get(key).is_some()
    }

    /// Removes every entry, leaving every slot free.
    pub fn clear(&mut self)
        requires
            old(self).wf(),
        ensures
            final(self).wf(),
            final(self).as_map() == Map::<u64, V>::empty(),
            final(self).spec_len() == 0,
            final(self).has_free_slot(),
    {
        let mut i: usize = 0;
        while i < N
            invariant
                i <= N,
                self.buckets@.len() == N,
                N > 0,
                forall|j: int| 0 <= j < i ==> self.buckets@[j] is Empty,
            decreases N - i,
        {
            self.buckets.set(i, Bucket::Empty);
            i += 1;
        }
        self.len = 0;
        proof {
            lemma_count_all_empty(self.buckets@);
            assert(self.as_map() =~= Map::<u64, V>::empty());
            assert(self.buckets@[0] is Empty);
        }
    }

    /// Whether slot `j` holds a live entry.
    pub closed spec fn occupied_at(&self, j: int) -> bool {
        0 <= j < self.buckets@.len() && self.buckets@[j] is Occupied
    }

    /// The key stored in slot `j`.
    pub closed spec fn key_at(&self, j: int) -> u64 {
        self.buckets@[j]->Occupied_0
    }

    /// The value stored in slot `j`.
    pub closed spec fn val_at(&self, j: int) -> V {
        self.buckets@[j]->Occupied_1
    }

    /// Each live slot stores one association of the map.
    pub proof fn lemma_slot_entry(&self, j: int)
        requires
            self.wf(),
            self.occupied_at(j),
        ensures
            self.as_map().contains_key(self.key_at(j)),
            self.as_map()[self.key_at(j)] == self.val_at(j),
    {
        self.lemma_slot_of(j, self.key_at(j));
    }

    /// Walks the slots in index order, yielding each live entry.
    pub fn iter(&self) -> (it: HashMapIter<'_, V, N>)
        requires
            self.wf(),
        ensures
            it.wf(),
            it.map() == self,
            it.pos() == 0,
    {
        HashMapIter { map: self, index: 0 }
    }
}

/// Iterator over a [`HashMap`], yielding key/value pairs in slot order.
pub struct HashMapIter<'a, V, const N: usize> {
    map: &'a HashMap<V, N>,
    index: usize,
}

impl<'a, V, const N: usize> HashMapIter<'a, V, N> {
    /// The table being walked.
    pub closed spec fn map(&self) -> &'a HashMap<V, N> {
        self.map
    }

    /// The next slot the walk will look at.
    pub closed spec fn pos(&self) -> int {
        self.index as int
    }

    pub open spec fn wf(&self) -> bool {
        &&& self.map().wf()
        &&& 0 <= self.pos() <= N
    }

    /// Yields the entry of the next live slot at or past the current
    /// position, or `None` when only free or tombstone slots remain.
    pub fn next(&mut self) -> (r: Option<(&'a u64, &'a V)>)
        requires
            old(self).wf(),
        ensures
            final(self).wf(),
            final(self).map() == old(self).map(),
            r is None ==> final(self).pos() == N && forall|j: int|
                old(self).pos() <= j < N ==> !old(self).map().occupied_at(j),
            r matches Some(p) ==> {
                &&& old(self).pos() <= final(self).pos() - 1 < N
                &&& old(self).map().occupied_at(final(self).pos() - 1)
                &&& *p.0 == old(self).map().key_at(final(self).pos() - 1)
                &&& *p.1 == old(self).map().val_at(final(self).pos() - 1)
                &&& forall|j: int|
                    old(self).pos() <= j < final(self).pos() - 1 ==> !old(self).map().occupied_at(
                        j,
                    )
            },
    {
        while self.index < N
            invariant
                self.map.wf(),
                self.map == old(self).map,
                old(self).index <= self.index <= N,
                forall|j: int| old(self).index <= j < self.index ==> !self.map.occupied_at(j),
            decreases N - self.index,
        {
            let current = self.index;
            self.index += 1;

            if self.map.buckets[current].is_occupied() {
                match &self.map.buckets[current] {
                    Bucket::Occupied(k, v) => {
                        return Some((k, v));
                    },
                    _ => {},
                }
            }
        }
        None
    }

    /// How many entries remain at most, as the pair of lower and upper bounds.
    pub fn size_hint(&self) -> (r: (usize, Option<usize>))
        requires
            self.wf(),
        ensures
            r.0 == self.map().spec_len(),
            r.1 matches Some(n) && n == self.map().spec_len(),
    {
        (self.map.len, Some(self.map.len))
    }
}

} // verus!
